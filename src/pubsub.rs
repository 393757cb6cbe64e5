//! Subscription declarations: registering them in the router, peer and
//! client scopes of a resource, and deciding which faces hear of them.

use crate::tables::{
    brokering, brokering_to, find_node, get_idx, is_liveliness, starts_with_liveliness, sub_allowed, Declaration, FaceState,
    Mode, Network, Outbound, Resource, SessionContext, SubscriberInfo, Tables, WhatAmI, ZenohId,
};
use vstd::prelude::*;

verus! {

/// Index of the first face with identity `z`, or -1.
pub open spec fn find_face(faces: Seq<FaceState>, z: ZenohId) -> int
    decreases faces.len(),
{
    if faces.len() == 0 {
        -1
    } else if find_face(faces.drop_last(), z) >= 0 {
        find_face(faces.drop_last(), z)
    } else if faces.last().zid == z {
        faces.len() - 1
    } else {
        -1
    }
}

/// The tables are unchanged but for the faces' `local_subs`, which keep
/// their other fields.
pub open spec fn same_but_local_subs(a: Tables, b: Tables) -> bool {
    &&& b == (Tables { faces: b.faces, ..a })
    &&& b.faces@.len() == a.faces@.len()
    &&& forall|f: int|
        0 <= f < a.faces@.len() ==> #[trigger] b.faces@[f] == (FaceState {
            local_subs: b.faces@[f].local_subs,
            ..a.faces@[f]
        })
}

pub fn contains_index(v: &Vec<usize>, x: usize) -> (r: bool)
    ensures
        r == v@.contains(x),
{
    let mut k: usize = 0;
    while k < v.len()
        invariant
            k <= v@.len(),
            forall|j: int| 0 <= j < k ==> v@[j] != x,
        decreases v@.len() - k,
    {
        if v[k] == x {
            assert(v@[k as int] == x);
            return true;
        }
        k = k + 1;
    }
    false
}

pub fn contains_zid(v: &Vec<ZenohId>, x: ZenohId) -> (r: bool)
    ensures
        r == v@.contains(x),
{
    let mut k: usize = 0;
    while k < v.len()
        invariant
            k <= v@.len(),
            forall|j: int| 0 <= j < k ==> v@[j] != x,
        decreases v@.len() - k,
    {
        if v[k] == x {
            assert(v@[k as int] == x);
            return true;
        }
        k = k + 1;
    }
    false
}

/// Index of the first face with identity `z`, if any.
pub fn get_face(t: &Tables, z: ZenohId) -> (r: Option<usize>)
    ensures
        r matches Some(k) ==> k == find_face(t.faces@, z) && k < t.faces@.len(),
        r is None ==> find_face(t.faces@, z) == -1,
{
    let mut k: usize = 0;
    while k < t.faces.len()
        invariant
            k <= t.faces@.len(),
            find_face(t.faces@.subrange(0, k as int), z) == -1,
        decreases t.faces@.len() - k,
    {
        assert(t.faces@.subrange(0, k + 1).drop_last() =~= t.faces@.subrange(0, k as int));
        if t.faces[k].zid == z {
            proof { lemma_find_face_prefix(t.faces@, z, k as int + 1); }
            return Some(k);
        }
        k = k + 1;
    }
    assert(t.faces@.subrange(0, k as int) =~= t.faces@);
    None
}

proof fn lemma_find_face_prefix(faces: Seq<FaceState>, z: ZenohId, n: int)
    requires
        0 < n <= faces.len(),
        find_face(faces.subrange(0, n), z) >= 0,
    ensures
        find_face(faces, z) == find_face(faces.subrange(0, n), z),
    decreases faces.len() - n,
{
    if n < faces.len() {
        assert(faces.subrange(0, n + 1).drop_last() =~= faces.subrange(0, n));
        lemma_find_face_prefix(faces, z, n + 1);
    } else {
        assert(faces.subrange(0, n) =~= faces);
    }
}

impl Tables {
    /// Replaces the `local_subs` of face `f`.
    pub fn set_local_subs(&mut self, f: usize, subs: Vec<usize>)
        requires
            f < old(self).faces@.len(),
        ensures
            *final(self) == (Tables { faces: final(self).faces, ..*old(self) }),
            final(self).faces@ == old(self).faces@.update(
                f as int,
                FaceState { local_subs: subs, ..old(self).faces@[f as int] },
            ),
    {
        let mut face = self.faces.remove(f);
        face.local_subs = subs;
        self.faces.insert(f, face);
        assert(self.faces@ =~= old(self).faces@.update(
            f as int,
            FaceState { local_subs: subs, ..old(self).faces@[f as int] },
        ));
    }
}

/// The condition under which a subscription on `res` declared by face
/// `src` is announced to face `dst` by simple propagation.
pub open spec fn simple_sub_to(t: Tables, dst: int, res: int, src: int, full_peer_net: bool) -> bool {
    &&& (src != dst || is_liveliness(t.resources@[res].expr@))
    &&& !t.faces@[dst].local_subs@.contains(res as usize)
    &&& sub_allowed(
        t.whatami,
        full_peer_net,
        t.faces@[src].whatami,
        t.faces@[dst].whatami,
        brokering(t.peers_net, t.faces@[src].zid, t.faces@[dst].zid),
    )
}

/// Announces the subscription on `res` to face `dst` if the role rules
/// allow it and `dst` has not heard of it yet.
pub fn propagate_simple_subscription_to(
    t: &mut Tables,
    dst: usize,
    res: usize,
    info: SubscriberInfo,
    src: usize,
    full_peer_net: bool,
    out: &mut Vec<Outbound>,
)
    requires
        dst < old(t).faces@.len(),
        src < old(t).faces@.len(),
        res < old(t).resources@.len(),
    ensures
        same_but_local_subs(*old(t), *final(t)),
        forall|f: int| 0 <= f < old(t).faces@.len() && f != dst ==> #[trigger] final(t).faces@[f] == old(t).faces@[f],
        simple_sub_to(*old(t), dst as int, res as int, src as int, full_peer_net) ==> {
            &&& final(t).faces@[dst as int].local_subs@ == old(t).faces@[dst as int].local_subs@.push(res)
            &&& final(out)@ == old(out)@.push(
                Outbound { face: dst, node_id: 0, body: Declaration::DeclareSubscriber { res, info } },
            )
        },
        !simple_sub_to(*old(t), dst as int, res as int, src as int, full_peer_net) ==> {
            &&& *final(t) == *old(t)
            &&& final(out)@ == old(out)@
        },
{
    let live = starts_with_liveliness(&t.resources[res].expr);
    if !((src != dst || live) && !contains_index(&t.faces[dst].local_subs, res)) {
        return;
    }
    let src_role = t.faces[src].whatami;
    let dst_role = t.faces[dst].whatami;
    let allowed = match t.whatami {
        WhatAmI::Router => {
            if full_peer_net {
                dst_role == WhatAmI::Client
            } else {
                dst_role != WhatAmI::Router && (src_role != WhatAmI::Peer || dst_role != WhatAmI::Peer
                    || t.failover_brokering(t.faces[src].zid, t.faces[dst].zid))
            }
        },
        WhatAmI::Peer => {
            if full_peer_net {
                dst_role == WhatAmI::Client
            } else {
                src_role == WhatAmI::Client || dst_role == WhatAmI::Client
            }
        },
        WhatAmI::Client => src_role == WhatAmI::Client || dst_role == WhatAmI::Client,
    };
    if !allowed {
        return;
    }
    let mut subs = copy_indices(&t.faces[dst].local_subs);
    subs.push(res);
    t.set_local_subs(dst, subs);
    out.push(Outbound { face: dst, node_id: 0, body: Declaration::DeclareSubscriber { res, info } });
}

pub fn copy_indices(v: &Vec<usize>) -> (r: Vec<usize>)
    ensures
        r@ == v@,
{
    let mut r: Vec<usize> = Vec::new();
    let mut k: usize = 0;
    while k < v.len()
        invariant
            k <= v@.len(),
            r@ == v@.subrange(0, k as int),
        decreases v@.len() - k,
    {
        r.push(v[k]);
        k = k + 1;
        assert(r@ =~= v@.subrange(0, k as int));
    }
    assert(v@.subrange(0, k as int) =~= v@);
    r
}

/// The declarations simple propagation sends for faces `0..n`, in order.
pub open spec fn simple_sub_msgs(
    t: Tables,
    res: int,
    info: SubscriberInfo,
    src: int,
    full_peer_net: bool,
    n: int,
) -> Seq<Outbound>
    decreases n,
{
    if n <= 0 {
        Seq::empty()
    } else if simple_sub_to(t, n - 1, res, src, full_peer_net) {
        simple_sub_msgs(t, res, info, src, full_peer_net, n - 1).push(
            Outbound {
                face: (n - 1) as usize,
                node_id: 0,
                body: Declaration::DeclareSubscriber { res: res as usize, info },
            },
        )
    } else {
        simple_sub_msgs(t, res, info, src, full_peer_net, n - 1)
    }
}

/// The `local_subs` of face `f` after simple propagation of `res`.
pub open spec fn after_simple_sub(t: Tables, f: int, res: int, src: int, full_peer_net: bool) -> Seq<usize> {
    if simple_sub_to(t, f, res, src, full_peer_net) {
        t.faces@[f].local_subs@.push(res as usize)
    } else {
        t.faces@[f].local_subs@
    }
}

/// Announces the subscription on `res`, declared by face `src`, to every
/// face that the role rules allow and that has not heard of it yet.
pub fn propagate_simple_subscription(
    t: &mut Tables,
    res: usize,
    info: SubscriberInfo,
    src: usize,
    out: &mut Vec<Outbound>,
)
    requires
        src < old(t).faces@.len(),
        res < old(t).resources@.len(),
    ensures
        same_but_local_subs(*old(t), *final(t)),
        forall|f: int| 0 <= f < old(t).faces@.len() ==> #[trigger] final(t).faces@[f].local_subs@
            == after_simple_sub(*old(t), f, res as int, src as int, old(t).full_peer_net),
        final(out)@ == old(out)@ + simple_sub_msgs(
            *old(t),
            res as int,
            info,
            src as int,
            old(t).full_peer_net,
            old(t).faces@.len() as int,
        ),
{
    let ghost t0 = *t;
    let full = t.full_peer_net;
    let mut d: usize = 0;
    while d < t.faces.len()
        invariant
            d <= t.faces@.len(),
            t.faces@.len() == t0.faces@.len(),
            src < t0.faces@.len(),
            res < t0.resources@.len(),
            full == t0.full_peer_net,
            same_but_local_subs(t0, *t),
            forall|f: int| 0 <= f < d ==> #[trigger] t.faces@[f].local_subs@ == after_simple_sub(
                t0,
                f,
                res as int,
                src as int,
                full,
            ),
            forall|f: int| d <= f < t.faces@.len() ==> #[trigger] t.faces@[f] == t0.faces@[f],
            out@ == old(out)@ + simple_sub_msgs(t0, res as int, info, src as int, full, d as int),
        decreases t.faces@.len() - d,
    {
        let ghost before = *t;
        assert(simple_sub_to(before, d as int, res as int, src as int, full) == simple_sub_to(
            t0,
            d as int,
            res as int,
            src as int,
            full,
        )) by {
            assert(before.faces@[d as int] == t0.faces@[d as int]);
            assert(before.faces@[src as int].whatami == t0.faces@[src as int].whatami);
            assert(before.faces@[src as int].zid == t0.faces@[src as int].zid);
        }
        propagate_simple_subscription_to(t, d, res, info, src, full, out);
        assert forall|f: int| 0 <= f < t0.faces@.len() implies #[trigger] t.faces@[f] == (FaceState {
            local_subs: t.faces@[f].local_subs,
            ..t0.faces@[f]
        }) by {
            assert(before.faces@[f] == (FaceState { local_subs: before.faces@[f].local_subs, ..t0.faces@[f] }));
        }
        d = d + 1;
    }
}

} // verus!

verus! {

/// The declarations sent to the faces of the children of a tree node.
pub open spec fn sourced_msgs(
    t: Tables,
    net: Network,
    children: Seq<usize>,
    src: Option<usize>,
    body: Declaration,
    node_id: u16,
) -> Seq<Outbound>
    decreases children.len(),
{
    if children.len() == 0 {
        Seq::empty()
    } else {
        let rest = sourced_msgs(t, net, children.drop_last(), src, body, node_id);
        let c = children.last() as int;
        if c < net.nodes@.len() {
            let f = find_face(t.faces@, net.nodes@[c].zid);
            if f >= 0 && (src is None || src->Some_0 != f as usize) {
                rest.push(Outbound { face: f as usize, node_id, body })
            } else {
                rest
            }
        } else {
            rest
        }
    }
}

/// Sends `body` to the face of each child that exists, but the source face.
pub fn send_sourced_to_net_children(
    t: &Tables,
    net: &Network,
    children: &Vec<usize>,
    src: Option<usize>,
    body: Declaration,
    node_id: u16,
    out: &mut Vec<Outbound>,
)
    ensures
        final(out)@ == old(out)@ + sourced_msgs(*t, *net, children@, src, body, node_id),
{
    let mut k: usize = 0;
    while k < children.len()
        invariant
            k <= children@.len(),
            out@ == old(out)@ + sourced_msgs(*t, *net, children@.subrange(0, k as int), src, body, node_id),
        decreases children@.len() - k,
    {
        let c = children[k];
        assert(children@.subrange(0, k + 1).drop_last() =~= children@.subrange(0, k as int));
        if c < net.nodes.len() {
            match get_face(t, net.nodes[c].zid) {
                Some(f) => {
                    let skip = match src {
                        Some(s) => s == f,
                        None => false,
                    };
                    if !skip {
                        out.push(Outbound { face: f, node_id, body });
                    }
                },
                None => {},
            }
        }
        k = k + 1;
    }
    assert(children@.subrange(0, k as int) =~= children@);
}

/// The network of the given kind: routers for `Router`, peers otherwise.
pub open spec fn net_of(t: Tables, net_type: WhatAmI) -> Option<Network> {
    if net_type == WhatAmI::Router {
        t.routers_net
    } else {
        t.peers_net
    }
}

/// What sourced propagation of `body` from `source` sends: along the tree
/// of `source`, once that tree is known.
pub open spec fn sourced_from(
    t: Tables,
    body: Declaration,
    src: Option<usize>,
    source: ZenohId,
    net_type: WhatAmI,
) -> Seq<Outbound> {
    match net_of(t, net_type) {
        Some(net) => {
            let sid = find_node(net.nodes@, source);
            if sid >= 0 && sid < net.trees@.len() {
                sourced_msgs(t, net, net.trees@[sid]@, src, body, sid as u16)
            } else {
                Seq::empty()
            }
        },
        None => Seq::empty(),
    }
}

/// Forwards `body`, declared at `source`, along the spanning tree of
/// `source` in the network of kind `net_type`.
pub fn propagate_sourced(
    t: &Tables,
    body: Declaration,
    src: Option<usize>,
    source: ZenohId,
    net_type: WhatAmI,
    out: &mut Vec<Outbound>,
)
    ensures
        final(out)@ == old(out)@ + sourced_from(*t, body, src, source, net_type),
{
    let net = match net_type {
        WhatAmI::Router => &t.routers_net,
        _ => &t.peers_net,
    };
    match net {
        Some(net) => match get_idx(net, source) {
            Some(sid) => {
                if sid < net.trees.len() {
                    send_sourced_to_net_children(t, net, &net.trees[sid], src, body, sid as u16, out);
                } else {
                    assert(sourced_from(*t, body, src, source, net_type) =~= Seq::empty());
                    assert(out@ =~= old(out)@ + Seq::<Outbound>::empty());
                }
            },
            None => {
                assert(out@ =~= old(out)@ + Seq::<Outbound>::empty());
            },
        },
        None => {
            assert(out@ =~= old(out)@ + Seq::<Outbound>::empty());
        },
    }
}

} // verus!

verus! {

/// `t1` differs from `t0` only in the registrations of resource `res`,
/// in the faces' remote declarations, and in faces hearing of `res`.
pub open spec fn sub_frame(t0: Tables, t1: Tables, res: int) -> bool {
    &&& t1.zid == t0.zid
    &&& t1.whatami == t0.whatami
    &&& t1.full_peer_net == t0.full_peer_net
    &&& t1.routers_net == t0.routers_net
    &&& t1.peers_net == t0.peers_net
    &&& t1.faces@.len() == t0.faces@.len()
    &&& t1.resources@.len() == t0.resources@.len()
    &&& forall|f: int|
        0 <= f < t0.faces@.len() ==> (#[trigger] t1.faces@[f]).zid == t0.faces@[f].zid
            && t1.faces@[f].whatami == t0.faces@[f].whatami && t1.faces@[f].id == t0.faces@[f].id
    &&& forall|f: int, x: usize|
        0 <= f < t0.faces@.len() && x != res ==> (#[trigger] t1.faces@[f].local_subs@.contains(x)
            <==> t0.faces@[f].local_subs@.contains(x))
    &&& forall|f: int|
        0 <= f < t0.faces@.len() && #[trigger] t0.faces@[f].local_subs@.contains(res as usize)
            ==> t1.faces@[f].local_subs@.contains(res as usize)
    &&& forall|r: int| 0 <= r < t0.resources@.len() && r != res ==> #[trigger] t1.resources@[r] == t0.resources@[r]
    &&& t1.resources@[res].expr == t0.resources@[res].expr
}

/// `o` declares a subscription on `res`.
pub open spec fn declares_sub(o: Outbound, res: int) -> bool {
    match o.body {
        Declaration::DeclareSubscriber { res: r, .. } => r == res,
        _ => false,
    }
}

/// Every declaration in `extra` declares a subscription on `res`.
pub open spec fn declares_only(extra: Seq<Outbound>, res: int) -> bool {
    forall|k: int| 0 <= k < extra.len() ==> declares_sub(#[trigger] extra[k], res)
}

/// Every client face but `src` has heard of the subscription on `res`.
pub open spec fn clients_hear(t: Tables, res: int, src: int) -> bool {
    forall|d: int|
        0 <= d < t.faces@.len() && (d != src || is_liveliness(t.resources@[res].expr@))
            && #[trigger] t.faces@[d].whatami == WhatAmI::Client
            ==> t.faces@[d].local_subs@.contains(res as usize)
}

/// The declaration of a subscription on `res` sent on face `d`.
pub open spec fn sub_msg(d: int, res: int, info: SubscriberInfo) -> Outbound {
    Outbound { face: d as usize, node_id: 0, body: Declaration::DeclareSubscriber { res: res as usize, info } }
}

/// Every client face of `t0` that the declaring face `src` does not
/// exclude (it is another face, or `res` is a liveliness key), and that
/// had not heard of `res`, is sent a declaration of it in `extra`.
pub open spec fn clients_sent(t0: Tables, extra: Seq<Outbound>, res: int, src: int, info: SubscriberInfo) -> bool {
    forall|d: int|
        0 <= d < t0.faces@.len() && (d != src || is_liveliness(t0.resources@[res].expr@))
            && #[trigger] t0.faces@[d].whatami == WhatAmI::Client && !t0.faces@[d].local_subs@.contains(res as usize)
            ==> extra.contains(sub_msg(d, res, info))
}

proof fn lemma_simple_msgs_contain(t: Tables, res: int, info: SubscriberInfo, src: int, fpn: bool, n: int, d: int)
    requires
        0 <= d < n,
        simple_sub_to(t, d, res, src, fpn),
    ensures
        simple_sub_msgs(t, res, info, src, fpn, n).contains(sub_msg(d, res, info)),
    decreases n,
{
    let m = simple_sub_msgs(t, res, info, src, fpn, n);
    if d == n - 1 {
        assert(m[m.len() - 1] == sub_msg(d, res, info));
    } else {
        lemma_simple_msgs_contain(t, res, info, src, fpn, n - 1, d);
        let p = simple_sub_msgs(t, res, info, src, fpn, n - 1);
        let j = choose|j: int| 0 <= j < p.len() && p[j] == sub_msg(d, res, info);
        assert(m[j] == sub_msg(d, res, info));
    }
}

proof fn lemma_sent_transfer(t0: Tables, t1: Tables, a: Seq<Outbound>, b: Seq<Outbound>, res: int, src: int, info: SubscriberInfo)
    requires
        0 <= res < t0.resources@.len(),
        t1.faces@.len() == t0.faces@.len(),
        t1.resources@.len() == t0.resources@.len(),
        forall|f: int| 0 <= f < t0.faces@.len() ==> (#[trigger] t1.faces@[f]).local_subs == t0.faces@[f].local_subs
            && t1.faces@[f].whatami == t0.faces@[f].whatami,
        t1.resources@[res].expr == t0.resources@[res].expr,
        clients_sent(t1, a, res, src, info),
        forall|o: Outbound| a.contains(o) ==> b.contains(o),
    ensures
        clients_sent(t0, b, res, src, info),
{
    assert forall|d: int|
        0 <= d < t0.faces@.len() && (d != src || is_liveliness(t0.resources@[res].expr@))
            && #[trigger] t0.faces@[d].whatami == WhatAmI::Client && !t0.faces@[d].local_subs@.contains(res as usize)
            implies b.contains(sub_msg(d, res, info)) by {
        assert(t1.faces@[d].local_subs == t0.faces@[d].local_subs && t1.faces@[d].whatami == t0.faces@[d].whatami);
        assert(a.contains(sub_msg(d, res, info)));
    }
}

pub proof fn lemma_suffix_contains(out0: Seq<Outbound>, out1: Seq<Outbound>, out2: Seq<Outbound>)
    requires
        out0.len() <= out1.len() <= out2.len(),
        out2.subrange(0, out1.len() as int) == out1,
    ensures
        forall|o: Outbound| out2.subrange(out1.len() as int, out2.len() as int).contains(o)
            ==> out2.subrange(out0.len() as int, out2.len() as int).contains(o),
        forall|o: Outbound| out1.subrange(out0.len() as int, out1.len() as int).contains(o)
            ==> out2.subrange(out0.len() as int, out2.len() as int).contains(o),
{
    let whole = out2.subrange(out0.len() as int, out2.len() as int);
    assert forall|o: Outbound| out2.subrange(out1.len() as int, out2.len() as int).contains(o) implies whole.contains(o) by {
        let tail = out2.subrange(out1.len() as int, out2.len() as int);
        let j = choose|j: int| 0 <= j < tail.len() && tail[j] == o;
        assert(whole[j + out1.len() - out0.len()] == o);
    }
    assert forall|o: Outbound| out1.subrange(out0.len() as int, out1.len() as int).contains(o) implies whole.contains(o) by {
        let mid = out1.subrange(out0.len() as int, out1.len() as int);
        let j = choose|j: int| 0 <= j < mid.len() && mid[j] == o;
        assert(out2[j + out0.len()] == out1[j + out0.len()]);
        assert(whole[j] == o);
    }
}

/// Face `f` holds a client subscription on resource `res`.
pub open spec fn client_sub(t: Tables, res: int, f: usize) -> bool {
    exists|k: int|
        0 <= k < t.resources@[res].session_ctxs@.len() && #[trigger] t.resources@[res].session_ctxs@[k].face == f
            && t.resources@[res].session_ctxs@[k].subs is Some
}

proof fn lemma_frame_trans(a: Tables, b: Tables, c: Tables, res: int)
    requires
        0 <= res < a.resources@.len(),
        sub_frame(a, b, res),
        sub_frame(b, c, res),
    ensures
        sub_frame(a, c, res),
{
    assert forall|f: int, x: usize|
        0 <= f < a.faces@.len() && x != res implies (#[trigger] c.faces@[f].local_subs@.contains(x)
            <==> a.faces@[f].local_subs@.contains(x)) by {
        assert(b.faces@[f].local_subs@.contains(x) <==> a.faces@[f].local_subs@.contains(x));
    }
    assert forall|f: int|
        0 <= f < a.faces@.len() && #[trigger] a.faces@[f].local_subs@.contains(res as usize)
            implies c.faces@[f].local_subs@.contains(res as usize) by {
        assert(b.faces@[f].local_subs@.contains(res as usize));
    }
    assert forall|f: int| 0 <= f < a.faces@.len() implies (#[trigger] c.faces@[f]).zid == a.faces@[f].zid
        && c.faces@[f].whatami == a.faces@[f].whatami && c.faces@[f].id == a.faces@[f].id by {
        assert(b.faces@[f].zid == a.faces@[f].zid && b.faces@[f].whatami == a.faces@[f].whatami
            && b.faces@[f].id == a.faces@[f].id);
        assert(c.faces@[f].zid == b.faces@[f].zid && c.faces@[f].whatami == b.faces@[f].whatami
            && c.faces@[f].id == b.faces@[f].id);
    }
    assert forall|r: int| 0 <= r < a.resources@.len() && r != res implies #[trigger] c.resources@[r] == a.resources@[r] by {
        assert(b.resources@[r] == a.resources@[r]);
    }
}

proof fn lemma_declares_append(a: Seq<Outbound>, b: Seq<Outbound>, res: int)
    requires
        declares_only(a, res),
        declares_only(b, res),
    ensures
        declares_only(a + b, res),
{
    assert forall|k: int| 0 <= k < (a + b).len() implies declares_sub(#[trigger] (a + b)[k], res) by {
        if k < a.len() {
            assert((a + b)[k] == a[k]);
        } else {
            assert((a + b)[k] == b[k - a.len()]);
        }
    }
}

proof fn lemma_simple_sub_msgs_declare(t: Tables, res: int, info: SubscriberInfo, src: int, fpn: bool, n: int)
    requires
        0 <= res <= usize::MAX,
    ensures
        declares_only(simple_sub_msgs(t, res, info, src, fpn, n), res),
    decreases n,
{
    if n > 0 {
        lemma_simple_sub_msgs_declare(t, res, info, src, fpn, n - 1);
        let prev = simple_sub_msgs(t, res, info, src, fpn, n - 1);
        let cur = simple_sub_msgs(t, res, info, src, fpn, n);
        assert forall|k: int| 0 <= k < cur.len() implies declares_sub(#[trigger] cur[k], res) by {
            if k < prev.len() {
                assert(cur[k] == prev[k]);
            }
        }
    }
}

proof fn lemma_sourced_msgs_declare(
    t: Tables,
    net: Network,
    children: Seq<usize>,
    src: Option<usize>,
    res: usize,
    info: SubscriberInfo,
    node_id: u16,
)
    ensures
        declares_only(
            sourced_msgs(t, net, children, src, Declaration::DeclareSubscriber { res, info }, node_id),
            res as int,
        ),
    decreases children.len(),
{
    if children.len() > 0 {
        lemma_sourced_msgs_declare(t, net, children.drop_last(), src, res, info, node_id);
        let body = Declaration::DeclareSubscriber { res, info };
        let prev = sourced_msgs(t, net, children.drop_last(), src, body, node_id);
        let cur = sourced_msgs(t, net, children, src, body, node_id);
        assert forall|k: int| 0 <= k < cur.len() implies declares_sub(#[trigger] cur[k], res as int) by {
            if k < prev.len() {
                assert(cur[k] == prev[k]);
            }
        }
    }
}

proof fn lemma_sourced_from_declare(
    t: Tables,
    res: usize,
    info: SubscriberInfo,
    src: Option<usize>,
    source: ZenohId,
    net_type: WhatAmI,
)
    ensures
        declares_only(sourced_from(t, Declaration::DeclareSubscriber { res, info }, src, source, net_type), res as int),
{
    match net_of(t, net_type) {
        Some(net) => {
            let sid = find_node(net.nodes@, source);
            if sid >= 0 && sid < net.trees@.len() {
                lemma_sourced_msgs_declare(t, net, net.trees@[sid]@, src, res, info, sid as u16);
            }
        },
        None => {},
    }
}

impl Tables {
    pub fn set_router_subs(&mut self, res: usize, v: Vec<ZenohId>)
        requires
            res < old(self).resources@.len(),
        ensures
            *final(self) == (Tables { resources: final(self).resources, ..*old(self) }),
            final(self).resources@ == old(self).resources@.update(
                res as int,
                Resource { router_subs: v, ..old(self).resources@[res as int] },
            ),
    {
        let mut r = self.resources.remove(res);
        r.router_subs = v;
        self.resources.insert(res, r);
        assert(self.resources@ =~= old(self).resources@.update(
            res as int,
            Resource { router_subs: v, ..old(self).resources@[res as int] },
        ));
    }

    pub fn set_peer_subs(&mut self, res: usize, v: Vec<ZenohId>)
        requires
            res < old(self).resources@.len(),
        ensures
            *final(self) == (Tables { resources: final(self).resources, ..*old(self) }),
            final(self).resources@ == old(self).resources@.update(
                res as int,
                Resource { peer_subs: v, ..old(self).resources@[res as int] },
            ),
    {
        let mut r = self.resources.remove(res);
        r.peer_subs = v;
        self.resources.insert(res, r);
        assert(self.resources@ =~= old(self).resources@.update(
            res as int,
            Resource { peer_subs: v, ..old(self).resources@[res as int] },
        ));
    }

    pub fn set_session_ctxs(&mut self, res: usize, v: Vec<SessionContext>)
        requires
            res < old(self).resources@.len(),
        ensures
            *final(self) == (Tables { resources: final(self).resources, ..*old(self) }),
            final(self).resources@ == old(self).resources@.update(
                res as int,
                Resource { session_ctxs: v, ..old(self).resources@[res as int] },
            ),
    {
        let mut r = self.resources.remove(res);
        r.session_ctxs = v;
        self.resources.insert(res, r);
        assert(self.resources@ =~= old(self).resources@.update(
            res as int,
            Resource { session_ctxs: v, ..old(self).resources@[res as int] },
        ));
    }

    pub fn set_remote_subs(&mut self, f: usize, v: Vec<usize>)
        requires
            f < old(self).faces@.len(),
        ensures
            *final(self) == (Tables { faces: final(self).faces, ..*old(self) }),
            final(self).faces@ == old(self).faces@.update(
                f as int,
                FaceState { remote_subs: v, ..old(self).faces@[f as int] },
            ),
    {
        let mut face = self.faces.remove(f);
        face.remote_subs = v;
        self.faces.insert(f, face);
        assert(self.faces@ =~= old(self).faces@.update(
            f as int,
            FaceState { remote_subs: v, ..old(self).faces@[f as int] },
        ));
    }
}

pub fn copy_zids(v: &Vec<ZenohId>) -> (r: Vec<ZenohId>)
    ensures
        r@ == v@,
{
    let mut r: Vec<ZenohId> = Vec::new();
    let mut k: usize = 0;
    while k < v.len()
        invariant
            k <= v@.len(),
            r@ == v@.subrange(0, k as int),
        decreases v@.len() - k,
    {
        r.push(v[k]);
        k = k + 1;
        assert(r@ =~= v@.subrange(0, k as int));
    }
    assert(v@.subrange(0, k as int) =~= v@);
    r
}

fn copy_ctxs(v: &Vec<SessionContext>) -> (r: Vec<SessionContext>)
    ensures
        r@ == v@,
{
    let mut r: Vec<SessionContext> = Vec::new();
    let mut k: usize = 0;
    while k < v.len()
        invariant
            k <= v@.len(),
            r@ == v@.subrange(0, k as int),
        decreases v@.len() - k,
    {
        r.push(v[k]);
        k = k + 1;
        assert(r@ =~= v@.subrange(0, k as int));
    }
    assert(v@.subrange(0, k as int) =~= v@);
    r
}

} // verus!

verus! {

/// What simple propagation guarantees besides its exact effect: only
/// `res` is added, every client face but `src` has heard of it, and only
/// declarations of `res` are sent.
proof fn lemma_simple_effects(t0: Tables, t1: Tables, res: int, info: SubscriberInfo, src: int)
    requires
        0 <= res < t0.resources@.len(),
        res <= usize::MAX,
        0 <= src < t0.faces@.len(),
        same_but_local_subs(t0, t1),
        forall|f: int| 0 <= f < t0.faces@.len() ==> #[trigger] t1.faces@[f].local_subs@
            == after_simple_sub(t0, f, res, src, t0.full_peer_net),
    ensures
        sub_frame(t0, t1, res),
        clients_hear(t1, res, src),
        declares_only(simple_sub_msgs(t0, res, info, src, t0.full_peer_net, t0.faces@.len() as int), res),
        clients_sent(t0, simple_sub_msgs(t0, res, info, src, t0.full_peer_net, t0.faces@.len() as int), res, src, info),
{
    assert forall|d: int|
        0 <= d < t0.faces@.len() && (d != src || is_liveliness(t0.resources@[res].expr@))
            && #[trigger] t0.faces@[d].whatami == WhatAmI::Client && !t0.faces@[d].local_subs@.contains(res as usize)
            implies simple_sub_msgs(t0, res, info, src, t0.full_peer_net, t0.faces@.len() as int).contains(sub_msg(d, res, info)) by {
        lemma_simple_msgs_contain(t0, res, info, src, t0.full_peer_net, t0.faces@.len() as int, d);
    }
    lemma_simple_sub_msgs_declare(t0, res, info, src, t0.full_peer_net, t0.faces@.len() as int);
    assert forall|f: int, x: usize|
        0 <= f < t0.faces@.len() && x != res implies (#[trigger] t1.faces@[f].local_subs@.contains(x)
            <==> t0.faces@[f].local_subs@.contains(x)) by {
        assert(t1.faces@[f].local_subs@ == after_simple_sub(t0, f, res, src, t0.full_peer_net));
        if t1.faces@[f].local_subs@.contains(x) && !t0.faces@[f].local_subs@.contains(x) {
            let j = choose|j: int| 0 <= j < t1.faces@[f].local_subs@.len() && t1.faces@[f].local_subs@[j] == x;
            if simple_sub_to(t0, f, res, src, t0.full_peer_net) {
                assert(t1.faces@[f].local_subs@ == t0.faces@[f].local_subs@.push(res as usize));
                if j == t0.faces@[f].local_subs@.len() {
                    assert(t1.faces@[f].local_subs@[j] == res as usize);
                }
            }
            assert(t0.faces@[f].local_subs@[j] == x);
        }
        if t0.faces@[f].local_subs@.contains(x) {
            let j = choose|j: int| 0 <= j < t0.faces@[f].local_subs@.len() && t0.faces@[f].local_subs@[j] == x;
            assert(t1.faces@[f].local_subs@[j] == x);
        }
    }
    assert forall|f: int|
        0 <= f < t0.faces@.len() && #[trigger] t0.faces@[f].local_subs@.contains(res as usize)
            implies t1.faces@[f].local_subs@.contains(res as usize) by {
        assert(t1.faces@[f].local_subs@ == after_simple_sub(t0, f, res, src, t0.full_peer_net));
        let j = choose|j: int| 0 <= j < t0.faces@[f].local_subs@.len() && t0.faces@[f].local_subs@[j] == res as usize;
        assert(t1.faces@[f].local_subs@[j] == res as usize);
    }
    assert forall|d: int|
        0 <= d < t1.faces@.len() && (d != src || is_liveliness(t1.resources@[res].expr@))
            && #[trigger] t1.faces@[d].whatami == WhatAmI::Client
            implies t1.faces@[d].local_subs@.contains(res as usize) by {
        assert(t1.faces@[d] == (FaceState { local_subs: t1.faces@[d].local_subs, ..t0.faces@[d] }));
        assert(t1.faces@[d].local_subs@ == after_simple_sub(t0, d, res, src, t0.full_peer_net));
        if simple_sub_to(t0, d, res, src, t0.full_peer_net) {
            assert(t1.faces@[d].local_subs@.last() == res as usize);
            assert(t1.faces@[d].local_subs@[t1.faces@[d].local_subs@.len() - 1] == res as usize);
        }
    }
    assert forall|f: int| 0 <= f < t0.faces@.len() implies (#[trigger] t1.faces@[f]).zid == t0.faces@[f].zid
        && t1.faces@[f].whatami == t0.faces@[f].whatami && t1.faces@[f].id == t0.faces@[f].id by {
        assert(t1.faces@[f] == (FaceState { local_subs: t1.faces@[f].local_subs, ..t0.faces@[f] }));
    }
}

/// Registers a subscription of peer `peer` on `res` in the peer scope,
/// forwards it along the peer tree of `peer`, and on a peer announces it
/// to the faces the role rules allow.
pub fn register_peer_subscription(
    t: &mut Tables,
    face: usize,
    res: usize,
    info: SubscriberInfo,
    peer: ZenohId,
    out: &mut Vec<Outbound>,
)
    requires
        face < old(t).faces@.len(),
        res < old(t).resources@.len(),
    ensures
        sub_frame(*old(t), *final(t), res as int),
        final(t).resources@[res as int].peer_subs@.contains(peer),
        forall|z: ZenohId| old(t).resources@[res as int].peer_subs@.contains(z) ==> final(t).resources@[res as int].peer_subs@.contains(z),
        final(t).resources@[res as int].router_subs == old(t).resources@[res as int].router_subs,
        final(t).resources@[res as int].session_ctxs == old(t).resources@[res as int].session_ctxs,
        final(t).peer_subs@.contains(res),
        forall|x: usize| old(t).peer_subs@.contains(x) ==> final(t).peer_subs@.contains(x),
        final(t).router_subs == old(t).router_subs,
        forall|f: int| 0 <= f < old(t).faces@.len() ==> #[trigger] final(t).faces@[f].remote_subs == old(t).faces@[f].remote_subs,
        final(t).whatami == WhatAmI::Peer ==> clients_hear(*final(t), res as int, face as int),
        old(t).whatami == WhatAmI::Peer ==> clients_sent(*old(t), final(out)@.subrange(old(out)@.len() as int, final(out)@.len() as int), res as int, face as int, info),
        old(t).whatami != WhatAmI::Peer ==> final(t).faces == old(t).faces,
        final(out)@.len() >= old(out)@.len(),
        final(out)@.subrange(0, old(out)@.len() as int) == old(out)@,
        declares_only(final(out)@.subrange(old(out)@.len() as int, final(out)@.len() as int), res as int),
{
    let ghost t0 = *t;
    let ghost out0 = out@;
    if !contains_zid(&t.resources[res].peer_subs, peer) {
        let mut v = copy_zids(&t.resources[res].peer_subs);
        let ghost before = v@;
        v.push(peer);
        assert forall|z: ZenohId| before.contains(z) implies v@.contains(z) by {
            let j = choose|j: int| 0 <= j < before.len() && before[j] == z;
            assert(v@[j] == z);
        }
        t.set_peer_subs(res, v);
        assert(v@.contains(peer)) by {
            assert(v@[v@.len() - 1] == peer);
        }
        proof { lemma_sourced_from_declare(*t, res, info, Some(face), peer, WhatAmI::Peer); }
        propagate_sourced(t, Declaration::DeclareSubscriber { res, info }, Some(face), peer, WhatAmI::Peer, out);
    }
    if !contains_index(&t.peer_subs, res) {
        let ghost before = t.peer_subs@;
        t.peer_subs.push(res);
        assert(t.peer_subs@[t.peer_subs@.len() - 1] == res);
        assert forall|x: usize| before.contains(x) implies t.peer_subs@.contains(x) by {
            let j = choose|j: int| 0 <= j < before.len() && before[j] == x;
            assert(t.peer_subs@[j] == x);
        }
    }
    assert(out@.subrange(0, out0.len() as int) =~= out0);
    assert(declares_only(out@.subrange(out0.len() as int, out@.len() as int), res as int));
    assert(sub_frame(t0, *t, res as int));
    if t.whatami == WhatAmI::Peer {
        let ghost t1 = *t;
        let ghost out1 = out@;
        propagate_simple_subscription(t, res, info, face, out);
        proof {
            lemma_simple_effects(t1, *t, res as int, info, face as int);
            lemma_frame_trans(t0, t1, *t, res as int);
            assert(out1.subrange(out0.len() as int, out1.len() as int) + (out@.subrange(out1.len() as int, out@.len() as int)) =~= out@.subrange(out0.len() as int, out@.len() as int));
            assert(out@.subrange(out1.len() as int, out@.len() as int) =~= simple_sub_msgs(t1, res as int, info, face as int, t1.full_peer_net, t1.faces@.len() as int));
            lemma_declares_append(out1.subrange(out0.len() as int, out1.len() as int), out@.subrange(out1.len() as int, out@.len() as int), res as int);
            assert(out@.subrange(0, out0.len() as int) =~= out0);
            assert forall|f: int| 0 <= f < t0.faces@.len() implies #[trigger] t.faces@[f].remote_subs == t0.faces@[f].remote_subs by {
                assert(t.faces@[f] == (FaceState { local_subs: t.faces@[f].local_subs, ..t1.faces@[f] }));
            }
            assert(t1.faces == t0.faces);
            assert(out@.subrange(0, out1.len() as int) =~= out1);
            lemma_suffix_contains(out0, out1, out@);
            lemma_sent_transfer(t0, t1, out@.subrange(out1.len() as int, out@.len() as int), out@.subrange(out0.len() as int, out@.len() as int), res as int, face as int, info);
        }
    }
}

} // verus!

verus! {

proof fn lemma_out_concat(out0: Seq<Outbound>, out1: Seq<Outbound>, out2: Seq<Outbound>, res: int)
    requires
        out0.len() <= out1.len() <= out2.len(),
        out1.subrange(0, out0.len() as int) == out0,
        out2.subrange(0, out1.len() as int) == out1,
        declares_only(out1.subrange(out0.len() as int, out1.len() as int), res),
        declares_only(out2.subrange(out1.len() as int, out2.len() as int), res),
    ensures
        declares_only(out2.subrange(out0.len() as int, out2.len() as int), res),
        out2.subrange(0, out0.len() as int) == out0,
{
    assert(out1.subrange(out0.len() as int, out1.len() as int) + out2.subrange(out1.len() as int, out2.len() as int)
        =~= out2.subrange(out0.len() as int, out2.len() as int));
    lemma_declares_append(out1.subrange(out0.len() as int, out1.len() as int), out2.subrange(out1.len() as int, out2.len() as int), res);
    assert(out2.subrange(0, out0.len() as int) =~= out1.subrange(0, out0.len() as int));
}

/// Registers a subscription of router `router` on `res` in the router
/// scope, forwards it along the router tree of `router`, registers this
/// node in the peer scope when the peer mesh is full and the declaring
/// face is not a peer, and announces it to the faces the role rules allow.
pub fn register_router_subscription(
    t: &mut Tables,
    face: usize,
    res: usize,
    info: SubscriberInfo,
    router: ZenohId,
    out: &mut Vec<Outbound>,
)
    requires
        face < old(t).faces@.len(),
        res < old(t).resources@.len(),
    ensures
        sub_frame(*old(t), *final(t), res as int),
        final(t).resources@[res as int].router_subs@.contains(router),
        old(t).full_peer_net && old(t).faces@[face as int].whatami != WhatAmI::Peer ==> final(t).resources@[res as int].peer_subs@.contains(old(t).zid),
        final(t).resources@[res as int].session_ctxs == old(t).resources@[res as int].session_ctxs,
        final(t).router_subs@.contains(res),
        forall|x: usize| old(t).peer_subs@.contains(x) ==> final(t).peer_subs@.contains(x),
        forall|z: ZenohId| old(t).resources@[res as int].peer_subs@.contains(z) ==> final(t).resources@[res as int].peer_subs@.contains(z),
        forall|f: int| 0 <= f < old(t).faces@.len() ==> #[trigger] final(t).faces@[f].remote_subs == old(t).faces@[f].remote_subs,
        clients_hear(*final(t), res as int, face as int),
        old(t).whatami != WhatAmI::Peer ==> clients_sent(*old(t), final(out)@.subrange(old(out)@.len() as int, final(out)@.len() as int), res as int, face as int, info),
        final(out)@.len() >= old(out)@.len(),
        final(out)@.subrange(0, old(out)@.len() as int) == old(out)@,
        declares_only(final(out)@.subrange(old(out)@.len() as int, final(out)@.len() as int), res as int),
{
    let ghost t0 = *t;
    let ghost out0 = out@;
    if !contains_zid(&t.resources[res].router_subs, router) {
        let mut v = copy_zids(&t.resources[res].router_subs);
        v.push(router);
        t.set_router_subs(res, v);
        assert(v@[v@.len() - 1] == router);
        proof { lemma_sourced_from_declare(*t, res, info, Some(face), router, WhatAmI::Router); }
        propagate_sourced(t, Declaration::DeclareSubscriber { res, info }, Some(face), router, WhatAmI::Router, out);
    }
    if !contains_index(&t.router_subs, res) {
        t.router_subs.push(res);
        assert(t.router_subs@[t.router_subs@.len() - 1] == res);
    }
    assert(out@.subrange(0, out0.len() as int) =~= out0);
    let ghost t1 = *t;
    let ghost out1 = out@;
    assert(sub_frame(t0, t1, res as int));
    if t.full_peer_net && t.faces[face].whatami != WhatAmI::Peer {
        let zid = t.zid;
        register_peer_subscription(t, face, res, info, zid, out);
    }
    assert(out@.subrange(0, out1.len() as int) =~= out1);
    proof {
        lemma_frame_trans(t0, t1, *t, res as int);
        lemma_out_concat(out0, out1, out@, res as int);
    }
    let ghost t2 = *t;
    let ghost out2 = out@;
    propagate_simple_subscription(t, res, info, face, out);
    proof {
        lemma_simple_effects(t2, *t, res as int, info, face as int);
        lemma_frame_trans(t0, t2, *t, res as int);
        assert(out@.subrange(out2.len() as int, out@.len() as int) =~= simple_sub_msgs(t2, res as int, info, face as int, t2.full_peer_net, t2.faces@.len() as int));
        assert(out@.subrange(0, out2.len() as int) =~= out2);
        lemma_out_concat(out0, out2, out@, res as int);
        assert forall|f: int| 0 <= f < t0.faces@.len() implies #[trigger] t.faces@[f].remote_subs == t0.faces@[f].remote_subs by {
            assert(t.faces@[f] == (FaceState { local_subs: t.faces@[f].local_subs, ..t2.faces@[f] }));
        }
        if t0.whatami != WhatAmI::Peer {
            assert(t2.faces == t0.faces);
            lemma_suffix_contains(out0, out2, out@);
            lemma_sent_transfer(t0, t2, out@.subrange(out2.len() as int, out@.len() as int), out@.subrange(out0.len() as int, out@.len() as int), res as int, face as int, info);
        }
    }
}

} // verus!

verus! {

/// Records, in the session context of `face` on `res`, that the face
/// subscribes with `info`; an existing pull subscription is replaced, an
/// existing push subscription is kept.
pub fn register_client_subscription(t: &mut Tables, face: usize, res: usize, info: SubscriberInfo)
    requires
        face < old(t).faces@.len(),
        res < old(t).resources@.len(),
    ensures
        sub_frame(*old(t), *final(t), res as int),
        client_sub(*final(t), res as int, face),
        final(t).faces@[face as int].remote_subs@.contains(res),
        forall|f: int| 0 <= f < old(t).faces@.len() ==> #[trigger] final(t).faces@[f].local_subs == old(t).faces@[f].local_subs,
        final(t).resources@[res as int].router_subs == old(t).resources@[res as int].router_subs,
        final(t).resources@[res as int].peer_subs == old(t).resources@[res as int].peer_subs,
        final(t).router_subs == old(t).router_subs,
        final(t).peer_subs == old(t).peer_subs,
{
    let ghost t0 = *t;
    let mut ctxs = copy_ctxs(&t.resources[res].session_ctxs);
    let mut k: usize = 0;
    while k < ctxs.len() && ctxs[k].face != face
        invariant
            k <= ctxs@.len(),
        decreases ctxs@.len() - k,
    {
        k = k + 1;
    }
    if k < ctxs.len() {
        let ctx = ctxs.remove(k);
        let subs = match ctx.subs {
            Some(cur) => match cur.mode {
                Mode::Pull => Some(info),
                Mode::Push => Some(cur),
            },
            None => Some(info),
        };
        ctxs.insert(k, SessionContext { face, subs, qabl: ctx.qabl });
        assert(ctxs@[k as int].face == face && ctxs@[k as int].subs is Some);
    } else {
        ctxs.push(SessionContext { face, subs: Some(info), qabl: None });
        assert(ctxs@[ctxs@.len() - 1].face == face);
    }
    let ghost cv = ctxs@;
    t.set_session_ctxs(res, ctxs);
    assert(client_sub(*t, res as int, face)) by {
        assert(t.resources@[res as int].session_ctxs@ == cv);
    }
    let ghost t1 = *t;
    if !contains_index(&t.faces[face].remote_subs, res) {
        let mut v = copy_indices(&t.faces[face].remote_subs);
        v.push(res);
        t.set_remote_subs(face, v);
        assert(v@[v@.len() - 1] == res);
    }
    assert forall|f: int| 0 <= f < t0.faces@.len() implies #[trigger] t.faces@[f].local_subs == t0.faces@[f].local_subs
        && t.faces@[f].zid == t0.faces@[f].zid && t.faces@[f].whatami == t0.faces@[f].whatami
        && t.faces@[f].id == t0.faces@[f].id by {}
}

/// Handles a subscription on `res` declared by face `face`: records it in
/// the client scope, then registers this node in the router scope (on a
/// router) or in the peer scope (on a peer of a full mesh), or announces
/// it directly to the faces the role rules allow. A face or resource that
/// does not exist makes the declaration void.
pub fn declare_client_subscription(
    t: &mut Tables,
    face: usize,
    res: usize,
    info: SubscriberInfo,
    out: &mut Vec<Outbound>,
)
    ensures
        !(face < old(t).faces@.len() && res < old(t).resources@.len()) ==> *final(t) == *old(t) && final(out)@ == old(out)@,
        face < old(t).faces@.len() && res < old(t).resources@.len() ==> {
            &&& sub_frame(*old(t), *final(t), res as int)
            &&& client_sub(*final(t), res as int, face)
            &&& final(t).faces@[face as int].remote_subs@.contains(res)
            &&& clients_hear(*final(t), res as int, face as int)
            &&& (old(t).whatami == WhatAmI::Router ==> final(t).resources@[res as int].router_subs@.contains(old(t).zid))
            &&& (old(t).whatami == WhatAmI::Peer && old(t).full_peer_net ==> final(t).resources@[res as int].peer_subs@.contains(old(t).zid))
            &&& (old(t).whatami == WhatAmI::Router ==> final(t).router_subs@.contains(res))
            &&& (old(t).whatami == WhatAmI::Peer && old(t).full_peer_net ==> final(t).peer_subs@.contains(res))
            &&& final(out)@.len() >= old(out)@.len()
            &&& final(out)@.subrange(0, old(out)@.len() as int) == old(out)@
            &&& declares_only(final(out)@.subrange(old(out)@.len() as int, final(out)@.len() as int), res as int)
            &&& clients_sent(*old(t), final(out)@.subrange(old(out)@.len() as int, final(out)@.len() as int), res as int, face as int,
                (SubscriberInfo { reliability: info.reliability, mode: Mode::Push }))
        },
{
    if face >= t.faces.len() || res >= t.resources.len() {
        return;
    }
    let ghost t0 = *t;
    let ghost out0 = out@;
    register_client_subscription(t, face, res, info);
    let ghost t1 = *t;
    let propa = SubscriberInfo { reliability: info.reliability, mode: Mode::Push };
    let zid = t.zid;
    match t.whatami {
        WhatAmI::Router => {
            register_router_subscription(t, face, res, propa, zid, out);
        },
        WhatAmI::Peer => {
            if t.full_peer_net {
                register_peer_subscription(t, face, res, propa, zid, out);
            } else {
                propagate_simple_subscription(t, res, propa, face, out);
                proof {
                    lemma_simple_effects(t1, *t, res as int, propa, face as int);
                    assert(out@.subrange(out0.len() as int, out@.len() as int) =~= simple_sub_msgs(t1, res as int, propa, face as int, t1.full_peer_net, t1.faces@.len() as int));
                    assert(out@.subrange(0, out0.len() as int) =~= out0);
                }
            }
        },
        WhatAmI::Client => {
            propagate_simple_subscription(t, res, propa, face, out);
            proof {
                lemma_simple_effects(t1, *t, res as int, propa, face as int);
                assert(out@.subrange(out0.len() as int, out@.len() as int) =~= simple_sub_msgs(t1, res as int, propa, face as int, t1.full_peer_net, t1.faces@.len() as int));
                assert(out@.subrange(0, out0.len() as int) =~= out0);
            }
        },
    }
    proof {
        lemma_frame_trans(t0, t1, *t, res as int);
        assert(client_sub(*t, res as int, face)) by {
            let k = choose|k: int| 0 <= k < t1.resources@[res as int].session_ctxs@.len() && #[trigger] t1.resources@[res as int].session_ctxs@[k].face == face
                && t1.resources@[res as int].session_ctxs@[k].subs is Some;
            assert(t.resources@[res as int].session_ctxs@[k].face == face);
        }
        if t0.whatami == WhatAmI::Peer && !t0.full_peer_net || t0.whatami == WhatAmI::Client {
            assert(t.faces@[face as int] == (FaceState { local_subs: t.faces@[face as int].local_subs, ..t1.faces@[face as int] }));
        }
        let extra = out@.subrange(out0.len() as int, out@.len() as int);
        lemma_sent_transfer(t0, t1, extra, extra, res as int, face as int, propa);
    }
}

/// Handles a subscription on `res` that router `router` declared, heard on
/// face `face`.
pub fn declare_router_subscription(
    t: &mut Tables,
    face: usize,
    res: usize,
    info: SubscriberInfo,
    router: ZenohId,
    out: &mut Vec<Outbound>,
)
    ensures
        !(face < old(t).faces@.len() && res < old(t).resources@.len()) ==> *final(t) == *old(t) && final(out)@ == old(out)@,
        face < old(t).faces@.len() && res < old(t).resources@.len() ==> {
            &&& sub_frame(*old(t), *final(t), res as int)
            &&& final(t).resources@[res as int].router_subs@.contains(router)
            &&& final(t).router_subs@.contains(res)
            &&& clients_hear(*final(t), res as int, face as int)
            &&& final(out)@.len() >= old(out)@.len()
            &&& final(out)@.subrange(0, old(out)@.len() as int) == old(out)@
            &&& declares_only(final(out)@.subrange(old(out)@.len() as int, final(out)@.len() as int), res as int)
        },
{
    if face >= t.faces.len() || res >= t.resources.len() {
        return;
    }
    register_router_subscription(t, face, res, info, router, out);
}

/// Handles a subscription on `res` that peer `peer` declared, heard on face
/// `face`; a router also registers itself in the router scope, in push
/// mode.
pub fn declare_peer_subscription(
    t: &mut Tables,
    face: usize,
    res: usize,
    info: SubscriberInfo,
    peer: ZenohId,
    out: &mut Vec<Outbound>,
)
    ensures
        !(face < old(t).faces@.len() && res < old(t).resources@.len()) ==> *final(t) == *old(t) && final(out)@ == old(out)@,
        face < old(t).faces@.len() && res < old(t).resources@.len() ==> {
            &&& sub_frame(*old(t), *final(t), res as int)
            &&& final(t).resources@[res as int].peer_subs@.contains(peer)
            &&& final(t).peer_subs@.contains(res)
            &&& (old(t).whatami == WhatAmI::Router ==> final(t).resources@[res as int].router_subs@.contains(old(t).zid))
            &&& (old(t).whatami == WhatAmI::Router ==> final(t).router_subs@.contains(res))
            &&& (old(t).whatami == WhatAmI::Router ==> clients_hear(*final(t), res as int, face as int))
            &&& (old(t).whatami == WhatAmI::Router ==> clients_sent(*old(t), final(out)@.subrange(old(out)@.len() as int,
                final(out)@.len() as int), res as int, face as int, (SubscriberInfo { reliability: info.reliability, mode: Mode::Push })))
            &&& final(out)@.len() >= old(out)@.len()
            &&& final(out)@.subrange(0, old(out)@.len() as int) == old(out)@
            &&& declares_only(final(out)@.subrange(old(out)@.len() as int, final(out)@.len() as int), res as int)
        },
{
    if face >= t.faces.len() || res >= t.resources.len() {
        return;
    }
    let ghost t0 = *t;
    let ghost out0 = out@;
    register_peer_subscription(t, face, res, info, peer, out);
    if t.whatami == WhatAmI::Router {
        let ghost t1 = *t;
        let ghost out1 = out@;
        let propa = SubscriberInfo { reliability: info.reliability, mode: Mode::Push };
        let zid = t.zid;
        register_router_subscription(t, face, res, propa, zid, out);
        proof {
            lemma_frame_trans(t0, t1, *t, res as int);
            lemma_out_concat(out0, out1, out@, res as int);
            assert(t1.peer_subs@.contains(res));
            assert(t1.faces == t0.faces);
            lemma_suffix_contains(out0, out1, out@);
            lemma_sent_transfer(t0, t1, out@.subrange(out1.len() as int, out@.len() as int),
                out@.subrange(out0.len() as int, out@.len() as int), res as int, face as int, propa);
        }
    }
}

} // verus!

verus! {

/// Some router other than this node subscribes to `res`.
pub open spec fn has_remote_router_subs(t: Tables, res: int) -> bool {
    exists|k: int| 0 <= k < t.resources@[res].router_subs@.len() && #[trigger] t.resources@[res].router_subs@[k] != t.zid
}

/// Some peer other than this node subscribes to `res`.
pub open spec fn has_remote_peer_subs(t: Tables, res: int) -> bool {
    exists|k: int| 0 <= k < t.resources@[res].peer_subs@.len() && #[trigger] t.resources@[res].peer_subs@[k] != t.zid
}

/// The faces with a client subscription on `res`, in session order.
pub open spec fn client_sub_faces(ctxs: Seq<SessionContext>) -> Seq<usize>
    decreases ctxs.len(),
{
    if ctxs.len() == 0 {
        Seq::empty()
    } else if ctxs.last().subs is Some {
        client_sub_faces(ctxs.drop_last()).push(ctxs.last().face)
    } else {
        client_sub_faces(ctxs.drop_last())
    }
}

fn any_other(v: &Vec<ZenohId>, z: ZenohId) -> (r: bool)
    ensures
        r == exists|k: int| 0 <= k < v@.len() && #[trigger] v@[k] != z,
{
    let mut k: usize = 0;
    while k < v.len()
        invariant
            k <= v@.len(),
            forall|j: int| 0 <= j < k ==> v@[j] == z,
        decreases v@.len() - k,
    {
        if v[k] != z {
            return true;
        }
        k = k + 1;
    }
    false
}

/// Whether a router other than this node subscribes to `res`.
pub fn remote_router_subs(t: &Tables, res: usize) -> (r: bool)
    requires
        res < t.resources@.len(),
    ensures
        r == has_remote_router_subs(*t, res as int),
{
    any_other(&t.resources[res].router_subs, t.zid)
}

/// Whether a peer other than this node subscribes to `res`.
pub fn remote_peer_subs(t: &Tables, res: usize) -> (r: bool)
    requires
        res < t.resources@.len(),
    ensures
        r == has_remote_peer_subs(*t, res as int),
{
    any_other(&t.resources[res].peer_subs, t.zid)
}

/// The faces with a client subscription on `res`.
pub fn client_subs(t: &Tables, res: usize) -> (r: Vec<usize>)
    requires
        res < t.resources@.len(),
    ensures
        r@ == client_sub_faces(t.resources@[res as int].session_ctxs@),
{
    let ctxs = &t.resources[res].session_ctxs;
    let mut r: Vec<usize> = Vec::new();
    let mut k: usize = 0;
    while k < ctxs.len()
        invariant
            k <= ctxs@.len(),
            r@ == client_sub_faces(ctxs@.subrange(0, k as int)),
        decreases ctxs@.len() - k,
    {
        assert(ctxs@.subrange(0, k + 1).drop_last() =~= ctxs@.subrange(0, k as int));
        if ctxs[k].subs.is_some() {
            r.push(ctxs[k].face);
        }
        k = k + 1;
    }
    assert(ctxs@.subrange(0, k as int) =~= ctxs@);
    r
}

pub fn remove_all(v: &Vec<usize>, x: usize) -> (r: Vec<usize>)
    ensures
        forall|y: usize| r@.contains(y) <==> v@.contains(y) && y != x,
{
    let mut r: Vec<usize> = Vec::new();
    let mut k: usize = 0;
    while k < v.len()
        invariant
            k <= v@.len(),
            forall|y: usize| r@.contains(y) <==> v@.subrange(0, k as int).contains(y) && y != x,
        decreases v@.len() - k,
    {
        let ghost before = r@;
        assert(forall|y: usize| before.contains(y) <==> v@.subrange(0, k as int).contains(y) && y != x);
        let ghost pre = v@.subrange(0, k as int);
        let ghost next = v@.subrange(0, k + 1);
        assert(forall|y: usize| next.contains(y) <==> pre.contains(y) || y == v@[k as int]) by {
            assert forall|y: usize| next.contains(y) implies pre.contains(y) || y == v@[k as int] by {
                let j = choose|j: int| 0 <= j < next.len() && next[j] == y;
                if j < k {
                    assert(pre[j] == y);
                }
            }
            assert forall|y: usize| pre.contains(y) || y == v@[k as int] implies next.contains(y) by {
                if y == v@[k as int] {
                    assert(next[k as int] == y);
                } else {
                    let j = choose|j: int| 0 <= j < pre.len() && pre[j] == y;
                    assert(next[j] == y);
                }
            }
        }
        if v[k] != x {
            r.push(v[k]);
            assert(forall|y: usize| r@.contains(y) <==> before.contains(y) || y == v@[k as int]) by {
                assert forall|y: usize| r@.contains(y) implies before.contains(y) || y == v@[k as int] by {
                    let j = choose|j: int| 0 <= j < r@.len() && r@[j] == y;
                    if j < before.len() {
                        assert(before[j] == y);
                    }
                }
                assert forall|y: usize| before.contains(y) implies r@.contains(y) by {
                    let j = choose|j: int| 0 <= j < before.len() && before[j] == y;
                    assert(r@[j] == y);
                }
                assert(r@[r@.len() - 1] == v@[k as int]);
            }
        } else {
            assert(r@ == before);
        }
        assert(forall|y: usize| r@.contains(y) <==> before.contains(y) || (v@[k as int] != x && y == v@[k as int]));
        assert forall|y: usize| r@.contains(y) <==> next.contains(y) && y != x by {
            assert(before.contains(y) <==> pre.contains(y) && y != x);
            assert(next.contains(y) <==> pre.contains(y) || y == v@[k as int]);
        }
        k = k + 1;
    }
    assert(v@.subrange(0, k as int) =~= v@);
    r
}

/// The undeclarations sent when forgetting `res` on faces `0..n`.
pub open spec fn forget_msgs(t: Tables, res: int, n: int) -> Seq<Outbound>
    decreases n,
{
    if n <= 0 {
        Seq::empty()
    } else if t.faces@[n - 1].local_subs@.contains(res as usize) {
        forget_msgs(t, res, n - 1).push(
            Outbound { face: (n - 1) as usize, node_id: 0, body: Declaration::UndeclareSubscriber { res: res as usize } },
        )
    } else {
        forget_msgs(t, res, n - 1)
    }
}


/// Every face that heard of `res` in `t0` and no longer does in `t1` was
/// sent an undeclaration of it, among the messages `o1` adds to `o0`.
pub open spec fn withdrawn(t0: Tables, t1: Tables, o0: Seq<Outbound>, o1: Seq<Outbound>, res: int) -> bool {
    &&& o1.len() >= o0.len()
    &&& o1.subrange(0, o0.len() as int) == o0
    &&& forall|f: int|
        0 <= f < t0.faces@.len() && #[trigger] t0.faces@[f].local_subs@.contains(res as usize)
            && !t1.faces@[f].local_subs@.contains(res as usize)
            ==> o1.subrange(o0.len() as int, o1.len() as int).contains(undecl_msg(f, res as usize))
}

proof fn lemma_withdrawn_none(a: Tables, b: Tables, o0: Seq<Outbound>, o1: Seq<Outbound>, res: int)
    requires
        o1.len() >= o0.len(),
        o1.subrange(0, o0.len() as int) == o0,
        forall|f: int| 0 <= f < a.faces@.len() && #[trigger] a.faces@[f].local_subs@.contains(res as usize)
            ==> b.faces@[f].local_subs@.contains(res as usize),
    ensures
        withdrawn(a, b, o0, o1, res),
{
}

proof fn lemma_withdrawn_same(a: Tables, b: Tables, o: Seq<Outbound>, res: int)
    requires
        forall|f: int| 0 <= f < a.faces@.len() ==> (#[trigger] b.faces@[f]).local_subs == a.faces@[f].local_subs,
    ensures
        withdrawn(a, b, o, o, res),
{
    assert(o.subrange(0, o.len() as int) =~= o);
    assert forall|f: int| 0 <= f < a.faces@.len() && #[trigger] a.faces@[f].local_subs@.contains(res as usize)
        implies b.faces@[f].local_subs@.contains(res as usize) by {
        assert(b.faces@[f].local_subs == a.faces@[f].local_subs);
    }
    lemma_withdrawn_none(a, b, o, o, res);
}

proof fn lemma_withdrawn_trans(a: Tables, b: Tables, c: Tables, o0: Seq<Outbound>, o1: Seq<Outbound>, o2: Seq<Outbound>, res: int)
    requires
        a.faces@.len() == b.faces@.len(),
        withdrawn(a, b, o0, o1, res),
        withdrawn(b, c, o1, o2, res),
    ensures
        withdrawn(a, c, o0, o2, res),
{
    lemma_suffix_contains(o0, o1, o2);
    assert(o2.subrange(0, o0.len() as int) =~= o1.subrange(0, o0.len() as int));
    assert forall|f: int|
        0 <= f < a.faces@.len() && #[trigger] a.faces@[f].local_subs@.contains(res as usize)
            && !c.faces@[f].local_subs@.contains(res as usize)
            implies o2.subrange(o0.len() as int, o2.len() as int).contains(undecl_msg(f, res as usize)) by {
        if b.faces@[f].local_subs@.contains(res as usize) {
            assert(o2.subrange(o1.len() as int, o2.len() as int).contains(undecl_msg(f, res as usize)));
        } else {
            assert(o1.subrange(o0.len() as int, o1.len() as int).contains(undecl_msg(f, res as usize)));
        }
    }
}

proof fn lemma_withdrawn_step(a: Tables, b: Tables, o1: Seq<Outbound>, d: int, res: int)
    requires
        a.faces@.len() == b.faces@.len(),
        0 <= d < a.faces@.len(),
        forall|f: int| 0 <= f < a.faces@.len() && f != d ==> #[trigger] b.faces@[f].local_subs == a.faces@[f].local_subs,
    ensures
        withdrawn(a, b, o1, o1.push(undecl_msg(d, res as usize)), res),
{
    let o2 = o1.push(undecl_msg(d, res as usize));
    assert(o2.subrange(o1.len() as int, o2.len() as int)[0] == undecl_msg(d, res as usize));
    assert(o2.subrange(0, o1.len() as int) =~= o1);
    assert forall|f: int|
        0 <= f < a.faces@.len() && #[trigger] a.faces@[f].local_subs@.contains(res as usize)
            && !b.faces@[f].local_subs@.contains(res as usize)
            implies o2.subrange(o1.len() as int, o2.len() as int).contains(undecl_msg(f, res as usize)) by {
        if f != d {
            assert(b.faces@[f].local_subs == a.faces@[f].local_subs);
        }
    }
}

proof fn lemma_forget_msgs_contain(t: Tables, res: int, n: int, f: int)
    requires
        0 <= f < n,
        t.faces@[f].local_subs@.contains(res as usize),
    ensures
        forget_msgs(t, res, n).contains(undecl_msg(f, res as usize)),
    decreases n,
{
    let m = forget_msgs(t, res, n);
    if f == n - 1 {
        assert(m[m.len() - 1] == undecl_msg(f, res as usize));
    } else {
        lemma_forget_msgs_contain(t, res, n - 1, f);
        let p = forget_msgs(t, res, n - 1);
        let j = choose|j: int| 0 <= j < p.len() && p[j] == undecl_msg(f, res as usize);
        assert(m[j] == undecl_msg(f, res as usize));
    }
}

/// Withdraws the subscription on `res` from every face that heard of it.
pub fn propagate_forget_simple_subscription(t: &mut Tables, res: usize, out: &mut Vec<Outbound>)
    ensures
        same_but_local_subs(*old(t), *final(t)),
        forall|f: int, y: usize| 0 <= f < old(t).faces@.len() ==> (#[trigger] final(t).faces@[f].local_subs@.contains(y)
            <==> old(t).faces@[f].local_subs@.contains(y) && y != res),
        final(out)@ == old(out)@ + forget_msgs(*old(t), res as int, old(t).faces@.len() as int),
        withdrawn(*old(t), *final(t), old(out)@, final(out)@, res as int),
{
    let ghost t0 = *t;
    let mut d: usize = 0;
    while d < t.faces.len()
        invariant
            d <= t.faces@.len(),
            t.faces@.len() == t0.faces@.len(),
            same_but_local_subs(t0, *t),
            forall|f: int, y: usize| 0 <= f < d ==> (#[trigger] t.faces@[f].local_subs@.contains(y)
                <==> t0.faces@[f].local_subs@.contains(y) && y != res),
            forall|f: int| d <= f < t.faces@.len() ==> #[trigger] t.faces@[f] == t0.faces@[f],
            out@ == old(out)@ + forget_msgs(t0, res as int, d as int),
        decreases t.faces@.len() - d,
    {
        let ghost before = *t;
        if contains_index(&t.faces[d].local_subs, res) {
            let v = remove_all(&t.faces[d].local_subs, res);
            t.set_local_subs(d, v);
            out.push(Outbound { face: d, node_id: 0, body: Declaration::UndeclareSubscriber { res } });
        } else {
            assert forall|y: usize| t.faces@[d as int].local_subs@.contains(y) <==> t0.faces@[d as int].local_subs@.contains(y) && y != res by {}
        }
        assert forall|f: int| 0 <= f < t0.faces@.len() implies #[trigger] t.faces@[f] == (FaceState {
            local_subs: t.faces@[f].local_subs,
            ..t0.faces@[f]
        }) by {
            assert(before.faces@[f] == (FaceState { local_subs: before.faces@[f].local_subs, ..t0.faces@[f] }));
        }
        d = d + 1;
    }
    proof {
        let extra = forget_msgs(t0, res as int, t0.faces@.len() as int);
        assert(out@.subrange(old(out)@.len() as int, out@.len() as int) =~= extra);
        assert(out@.subrange(0, old(out)@.len() as int) =~= old(out)@);
        assert forall|f: int|
            0 <= f < t0.faces@.len() && #[trigger] t0.faces@[f].local_subs@.contains(res as usize)
                && !t.faces@[f].local_subs@.contains(res as usize)
                implies extra.contains(undecl_msg(f, res as usize)) by {
            lemma_forget_msgs_contain(t0, res as int, t0.faces@.len() as int, f);
        }
    }
}

} // verus!

verus! {

/// `t1` differs from `t0` only in the registrations of `res` and the
/// global indexes, and in faces forgetting `res`.
pub open spec fn forget_frame(t0: Tables, t1: Tables, res: int) -> bool {
    &&& t1.zid == t0.zid
    &&& t1.whatami == t0.whatami
    &&& t1.full_peer_net == t0.full_peer_net
    &&& t1.routers_net == t0.routers_net
    &&& t1.peers_net == t0.peers_net
    &&& t1.faces@.len() == t0.faces@.len()
    &&& t1.resources@.len() == t0.resources@.len()
    &&& forall|f: int|
        0 <= f < t0.faces@.len() ==> (#[trigger] t1.faces@[f]).zid == t0.faces@[f].zid
            && t1.faces@[f].whatami == t0.faces@[f].whatami && t1.faces@[f].id == t0.faces@[f].id
            && t1.faces@[f].remote_subs == t0.faces@[f].remote_subs
    &&& forall|f: int, y: usize|
        0 <= f < t0.faces@.len() && #[trigger] t1.faces@[f].local_subs@.contains(y) ==> t0.faces@[f].local_subs@.contains(y)
    &&& forall|f: int, y: usize|
        0 <= f < t0.faces@.len() && y != res && #[trigger] t0.faces@[f].local_subs@.contains(y)
            ==> t1.faces@[f].local_subs@.contains(y)
    &&& forall|r: int| 0 <= r < t0.resources@.len() && r != res ==> #[trigger] t1.resources@[r] == t0.resources@[r]
    &&& t1.resources@[res].session_ctxs == t0.resources@[res].session_ctxs
    &&& t1.resources@[res].expr == t0.resources@[res].expr
}

/// No face has heard of a subscription on `res`.
pub open spec fn nobody_hears(t: Tables, res: int) -> bool {
    forall|f: int| 0 <= f < t.faces@.len() ==> !(#[trigger] t.faces@[f].local_subs@.contains(res as usize))
}

proof fn lemma_forget_trans(a: Tables, b: Tables, c: Tables, res: int)
    requires
        0 <= res < a.resources@.len(),
        forget_frame(a, b, res),
        forget_frame(b, c, res),
    ensures
        forget_frame(a, c, res),
        nobody_hears(b, res) ==> nobody_hears(c, res),
{
    assert forall|f: int| 0 <= f < a.faces@.len() implies (#[trigger] c.faces@[f]).zid == a.faces@[f].zid
        && c.faces@[f].whatami == a.faces@[f].whatami && c.faces@[f].id == a.faces@[f].id
        && c.faces@[f].remote_subs == a.faces@[f].remote_subs by {
        assert(b.faces@[f].zid == a.faces@[f].zid);
    }
    assert forall|f: int, y: usize|
        0 <= f < a.faces@.len() && #[trigger] c.faces@[f].local_subs@.contains(y) implies a.faces@[f].local_subs@.contains(y) by {
        assert(b.faces@[f].local_subs@.contains(y));
    }
    assert forall|f: int, y: usize|
        0 <= f < a.faces@.len() && y != res && #[trigger] a.faces@[f].local_subs@.contains(y) implies c.faces@[f].local_subs@.contains(y) by {
        assert(b.faces@[f].local_subs@.contains(y));
    }
    assert forall|r: int| 0 <= r < a.resources@.len() && r != res implies #[trigger] c.resources@[r] == a.resources@[r] by {
        assert(b.resources@[r] == a.resources@[r]);
    }
    if nobody_hears(b, res) {
        assert forall|f: int| 0 <= f < c.faces@.len() implies !(#[trigger] c.faces@[f].local_subs@.contains(res as usize)) by {
            if c.faces@[f].local_subs@.contains(res as usize) {
                assert(b.faces@[f].local_subs@.contains(res as usize));
            }
        }
    }
}

proof fn lemma_forget_simple_frame(t0: Tables, t1: Tables, res: int)
    requires
        0 <= res < t0.resources@.len(),
        res <= usize::MAX,
        same_but_local_subs(t0, t1),
        forall|f: int, y: usize| 0 <= f < t0.faces@.len() ==> (#[trigger] t1.faces@[f].local_subs@.contains(y)
            <==> t0.faces@[f].local_subs@.contains(y) && y != res),
    ensures
        forget_frame(t0, t1, res),
        nobody_hears(t1, res),
{
    assert forall|f: int| 0 <= f < t0.faces@.len() implies (#[trigger] t1.faces@[f]).zid == t0.faces@[f].zid
        && t1.faces@[f].whatami == t0.faces@[f].whatami && t1.faces@[f].id == t0.faces@[f].id
        && t1.faces@[f].remote_subs == t0.faces@[f].remote_subs by {
        assert(t1.faces@[f] == (FaceState { local_subs: t1.faces@[f].local_subs, ..t0.faces@[f] }));
    }
    assert forall|f: int| 0 <= f < t1.faces@.len() implies !(#[trigger] t1.faces@[f].local_subs@.contains(res as usize)) by {
        assert(t1.faces@[f].local_subs@.contains(res as usize) <==> t0.faces@[f].local_subs@.contains(res as usize) && res as usize != res as usize);
    }
}

fn remove_zid(v: &Vec<ZenohId>, z: ZenohId) -> (r: Vec<ZenohId>)
    ensures
        forall|y: ZenohId| r@.contains(y) <==> v@.contains(y) && y != z,
        r@.len() == 0 <==> forall|k: int| 0 <= k < v@.len() ==> v@[k] == z,
{
    let mut r: Vec<ZenohId> = Vec::new();
    let mut k: usize = 0;
    while k < v.len()
        invariant
            k <= v@.len(),
            forall|y: ZenohId| r@.contains(y) <==> v@.subrange(0, k as int).contains(y) && y != z,
            r@.len() == 0 <==> forall|j: int| 0 <= j < k ==> v@[j] == z,
        decreases v@.len() - k,
    {
        let ghost before = r@;
        let ghost pre = v@.subrange(0, k as int);
        let ghost next = v@.subrange(0, k + 1);
        assert(forall|y: ZenohId| before.contains(y) <==> pre.contains(y) && y != z);
        assert forall|y: ZenohId| next.contains(y) <==> pre.contains(y) || y == v@[k as int] by {
            if next.contains(y) {
                let j = choose|j: int| 0 <= j < next.len() && next[j] == y;
                if j < k {
                    assert(pre[j] == y);
                }
            }
            if pre.contains(y) {
                let j = choose|j: int| 0 <= j < pre.len() && pre[j] == y;
                assert(next[j] == y);
            }
            if y == v@[k as int] {
                assert(next[k as int] == y);
            }
        }
        if v[k] != z {
            r.push(v[k]);
            assert forall|y: ZenohId| r@.contains(y) <==> before.contains(y) || y == v@[k as int] by {
                if r@.contains(y) {
                    let j = choose|j: int| 0 <= j < r@.len() && r@[j] == y;
                    if j < before.len() {
                        assert(before[j] == y);
                    }
                }
                if before.contains(y) {
                    let j = choose|j: int| 0 <= j < before.len() && before[j] == y;
                    assert(r@[j] == y);
                }
                assert(r@[r@.len() - 1] == v@[k as int]);
            }
        }
        assert forall|y: ZenohId| r@.contains(y) <==> next.contains(y) && y != z by {
            assert(before.contains(y) <==> pre.contains(y) && y != z);
        }
        k = k + 1;
        assert(v@.subrange(0, k as int) == next);
    }
    assert(v@.subrange(0, k as int) =~= v@);
    r
}

/// Removes peer `peer` from the peer scope of `res`; once no peer is left,
/// `res` leaves the peer index and, on a peer, is withdrawn from every face.
pub fn unregister_peer_subscription(t: &mut Tables, res: usize, peer: ZenohId, out: &mut Vec<Outbound>)
    requires
        res < old(t).resources@.len(),
    ensures
        forget_frame(*old(t), *final(t), res as int),
        forall|y: ZenohId| final(t).resources@[res as int].peer_subs@.contains(y) <==> old(t).resources@[res as int].peer_subs@.contains(y) && y != peer,
        final(t).resources@[res as int].router_subs == old(t).resources@[res as int].router_subs,
        final(t).resources@[res as int].peer_subs@.len() == 0 && final(t).whatami == WhatAmI::Peer ==> nobody_hears(*final(t), res as int),
        withdrawn(*old(t), *final(t), old(out)@, final(out)@, res as int),
        final(t).router_subs == old(t).router_subs,
{
    let ghost t0 = *t;
    let ghost o0 = out@;
    let v = remove_zid(&t.resources[res].peer_subs, peer);
    let empty = v.len() == 0;
    t.set_peer_subs(res, v);
    let ghost t1 = *t;
    assert(forget_frame(t0, t1, res as int));
    if empty {
        let idx = remove_all(&t.peer_subs, res);
        t.peer_subs = idx;
        if t.whatami == WhatAmI::Peer {
            let ghost t2 = *t;
            propagate_forget_simple_subscription(t, res, out);
            proof {
                lemma_forget_simple_frame(t2, *t, res as int);
                lemma_forget_trans(t0, t2, *t, res as int);
                lemma_withdrawn_same(t0, t2, o0, res as int);
                lemma_withdrawn_trans(t0, t2, *t, o0, o0, out@, res as int);
            }
        } else {
            proof { lemma_withdrawn_same(t0, *t, o0, res as int); }
        }
    } else {
        proof { lemma_withdrawn_same(t0, *t, o0, res as int); }
    }
}

/// Removes peer `peer` from the peer scope of `res`, if it is there, and
/// withdraws it along the peer tree of `peer`.
pub fn undeclare_peer_subscription(
    t: &mut Tables,
    face: Option<usize>,
    res: usize,
    peer: ZenohId,
    out: &mut Vec<Outbound>,
)
    requires
        res < old(t).resources@.len(),
    ensures
        forget_frame(*old(t), *final(t), res as int),
        forall|y: ZenohId| final(t).resources@[res as int].peer_subs@.contains(y) <==> old(t).resources@[res as int].peer_subs@.contains(y) && y != peer,
        final(t).resources@[res as int].router_subs == old(t).resources@[res as int].router_subs,
        old(t).resources@[res as int].peer_subs@.contains(peer) && final(t).resources@[res as int].peer_subs@.len() == 0
            && final(t).whatami == WhatAmI::Peer ==> nobody_hears(*final(t), res as int),
        withdrawn(*old(t), *final(t), old(out)@, final(out)@, res as int),
        final(t).router_subs == old(t).router_subs,
{
    if contains_zid(&t.resources[res].peer_subs, peer) {
        let ghost t0 = *t;
        let ghost o0 = out@;
        unregister_peer_subscription(t, res, peer, out);
        let ghost t1 = *t;
        let ghost o1 = out@;
        propagate_sourced(t, Declaration::UndeclareSubscriber { res }, face, peer, WhatAmI::Peer, out);
        proof {
            assert(out@.subrange(0, o1.len() as int) =~= o1);
            lemma_withdrawn_none(t1, *t, o1, out@, res as int);
            lemma_withdrawn_trans(t0, t1, *t, o0, o1, out@, res as int);
        }
    } else {
        assert(forget_frame(*old(t), *t, res as int));
        proof { lemma_withdrawn_same(*t, *t, out@, res as int); }
    }
}

} // verus!

verus! {

/// Some face other than `d`, with a client subscription on `res`, is a
/// client, or a peer that `d` can only reach through this node.
pub open spec fn bridged(t: Tables, res: int, d: int) -> bool {
    exists|k: int|
        0 <= k < t.resources@[res].session_ctxs@.len() && {
            let s = #[trigger] t.resources@[res].session_ctxs@[k];
            &&& (s.face as int) < t.faces@.len()
            &&& t.faces@[d].zid != t.faces@[s.face as int].zid
            &&& s.subs is Some
            &&& (t.faces@[s.face as int].whatami == WhatAmI::Client || (t.faces@[s.face as int].whatami
                == WhatAmI::Peer && brokering(t.peers_net, t.faces@[s.face as int].zid, t.faces@[d].zid)))
        }
}

fn is_bridged(t: &Tables, res: usize, d: usize) -> (r: bool)
    requires
        res < t.resources@.len(),
        d < t.faces@.len(),
    ensures
        r == bridged(*t, res as int, d as int),
{
    let ctxs = &t.resources[res].session_ctxs;
    let mut k: usize = 0;
    while k < ctxs.len()
        invariant
            k <= ctxs@.len(),
            d < t.faces@.len(),
            ctxs@ == t.resources@[res as int].session_ctxs@,
            forall|j: int| 0 <= j < k ==> !({
                let s = #[trigger] ctxs@[j];
                &&& (s.face as int) < t.faces@.len()
                &&& t.faces@[d as int].zid != t.faces@[s.face as int].zid
                &&& s.subs is Some
                &&& (t.faces@[s.face as int].whatami == WhatAmI::Client || (t.faces@[s.face as int].whatami
                    == WhatAmI::Peer && brokering(t.peers_net, t.faces@[s.face as int].zid, t.faces@[d as int].zid)))
            }),
        decreases ctxs@.len() - k,
    {
        let s = ctxs[k];
        if s.face < t.faces.len() && t.faces[d].zid != t.faces[s.face].zid && s.subs.is_some() {
            let role = t.faces[s.face].whatami;
            if role == WhatAmI::Client || (role == WhatAmI::Peer && t.failover_brokering(t.faces[s.face].zid, t.faces[d].zid)) {
                assert(ctxs@[k as int] == s);
                return true;
            }
        }
        k = k + 1;
    }
    false
}

/// On a router of a partial peer mesh that is the only router subscribed
/// to `res`, withdraws `res` from the peer faces that no longer need this
/// node to bridge them to a subscriber.
pub fn propagate_forget_simple_subscription_to_peers(t: &mut Tables, res: usize, out: &mut Vec<Outbound>)
    requires
        res < old(t).resources@.len(),
    ensures
        forget_frame(*old(t), *final(t), res as int),
        same_but_local_subs(*old(t), *final(t)),
        withdrawn(*old(t), *final(t), old(out)@, final(out)@, res as int),
{
    let ghost t0 = *t;
    let ghost out0 = out@;
    proof { lemma_withdrawn_same(t0, t0, out0, res as int); }
    let only_self = t.resources[res].router_subs.len() == 1 && t.resources[res].router_subs[0] == t.zid;
    if t.full_peer_net || !only_self {
        return;
    }
    let mut d: usize = 0;
    while d < t.faces.len()
        invariant
            d <= t.faces@.len(),
            res < t0.resources@.len(),
            same_but_local_subs(t0, *t),
            forall|f: int, y: usize| 0 <= f < t0.faces@.len() && #[trigger] t.faces@[f].local_subs@.contains(y) ==> t0.faces@[f].local_subs@.contains(y),
            forall|f: int, y: usize| 0 <= f < t0.faces@.len() && y != res && #[trigger] t0.faces@[f].local_subs@.contains(y) ==> t.faces@[f].local_subs@.contains(y),
            withdrawn(t0, *t, out0, out@, res as int),
        decreases t.faces@.len() - d,
    {
        let ghost before = *t;
        let ghost ob = out@;
        if t.faces[d].whatami == WhatAmI::Peer && contains_index(&t.faces[d].local_subs, res) && !is_bridged(t, res, d) {
            let v = remove_all(&t.faces[d].local_subs, res);
            t.set_local_subs(d, v);
            out.push(Outbound { face: d, node_id: 0, body: Declaration::UndeclareSubscriber { res } });
            proof {
                assert(out@ == ob.push(undecl_msg(d as int, res)));
                lemma_withdrawn_step(before, *t, ob, d as int, res as int);
                lemma_withdrawn_trans(t0, before, *t, out0, ob, out@, res as int);
            }
            assert forall|f: int| 0 <= f < t0.faces@.len() implies #[trigger] t.faces@[f] == (FaceState {
                local_subs: t.faces@[f].local_subs,
                ..t0.faces@[f]
            }) by {
                assert(before.faces@[f] == (FaceState { local_subs: before.faces@[f].local_subs, ..t0.faces@[f] }));
            }
            assert forall|f: int, y: usize| 0 <= f < t0.faces@.len() && #[trigger] t.faces@[f].local_subs@.contains(y) implies t0.faces@[f].local_subs@.contains(y) by {
                if f != d {
                    assert(before.faces@[f].local_subs@.contains(y));
                } else {
                    assert(before.faces@[f].local_subs@.contains(y));
                }
            }
            assert forall|f: int, y: usize| 0 <= f < t0.faces@.len() && y != res && #[trigger] t0.faces@[f].local_subs@.contains(y) implies t.faces@[f].local_subs@.contains(y) by {
                assert(before.faces@[f].local_subs@.contains(y));
            }
        }
        d = d + 1;
    }
    proof {
        assert forall|f: int| 0 <= f < t0.faces@.len() implies (#[trigger] t.faces@[f]).zid == t0.faces@[f].zid
            && t.faces@[f].whatami == t0.faces@[f].whatami && t.faces@[f].id == t0.faces@[f].id
            && t.faces@[f].remote_subs == t0.faces@[f].remote_subs by {
            assert(t.faces@[f] == (FaceState { local_subs: t.faces@[f].local_subs, ..t0.faces@[f] }));
        }
    }
}

proof fn lemma_none_left(v: Seq<ZenohId>, old_v: Seq<ZenohId>, z: ZenohId)
    requires
        forall|y: ZenohId| v.contains(y) <==> old_v.contains(y) && y != z,
        !(exists|k: int| 0 <= k < old_v.len() && #[trigger] old_v[k] != z),
    ensures
        v.len() == 0,
{
    if v.len() > 0 {
        assert(v.contains(v[0]));
        let k = choose|k: int| 0 <= k < old_v.len() && old_v[k] == v[0];
        assert(old_v[k] != z);
    }
}

/// Removes router `router` from the router scope of `res`; once no router
/// is left, `res` leaves the router index, this node leaves the peer scope
/// of a full mesh, and `res` is withdrawn from every face.
pub fn unregister_router_subscription(t: &mut Tables, res: usize, router: ZenohId, out: &mut Vec<Outbound>)
    requires
        res < old(t).resources@.len(),
    ensures
        forget_frame(*old(t), *final(t), res as int),
        forall|y: ZenohId| final(t).resources@[res as int].router_subs@.contains(y) <==> old(t).resources@[res as int].router_subs@.contains(y) && y != router,
        forall|y: ZenohId| final(t).resources@[res as int].peer_subs@.contains(y) ==> old(t).resources@[res as int].peer_subs@.contains(y),
        final(t).resources@[res as int].router_subs@.len() == 0 ==> nobody_hears(*final(t), res as int),
        withdrawn(*old(t), *final(t), old(out)@, final(out)@, res as int),
        final(t).resources@[res as int].router_subs@.len() == 0 ==> !final(t).router_subs@.contains(res),
        forall|x: usize| final(t).router_subs@.contains(x) ==> old(t).router_subs@.contains(x),
        forall|x: usize| x != res ==> (final(t).router_subs@.contains(x) <==> old(t).router_subs@.contains(x)),
        final(t).resources@[res as int].router_subs@.len() > 0 ==> final(t).router_subs == old(t).router_subs,
{
    let ghost t0 = *t;
    let ghost o0 = out@;
    let v = remove_zid(&t.resources[res].router_subs, router);
    let empty = v.len() == 0;
    t.set_router_subs(res, v);
    assert(forget_frame(t0, *t, res as int));
    proof { lemma_withdrawn_same(t0, *t, o0, res as int); }
    if empty {
        let idx = remove_all(&t.router_subs, res);
        t.router_subs = idx;
        proof { lemma_withdrawn_same(t0, *t, o0, res as int); }
        if t.full_peer_net {
            let ghost t1 = *t;
            let zid = t.zid;
            undeclare_peer_subscription(t, None, res, zid, out);
            proof {
                lemma_forget_trans(t0, t1, *t, res as int);
                lemma_withdrawn_trans(t0, t1, *t, o0, o0, out@, res as int);
            }
        }
        let ghost t2 = *t;
        let ghost o2 = out@;
        propagate_forget_simple_subscription(t, res, out);
        proof {
            lemma_forget_simple_frame(t2, *t, res as int);
            lemma_forget_trans(t0, t2, *t, res as int);
            lemma_withdrawn_trans(t0, t2, *t, o0, o2, out@, res as int);
        }
    }
    let ghost t3 = *t;
    let ghost o3 = out@;
    propagate_forget_simple_subscription_to_peers(t, res, out);
    proof {
        lemma_forget_trans(t0, t3, *t, res as int);
        lemma_withdrawn_trans(t0, t3, *t, o0, o3, out@, res as int);
    }
}


/// `m` ends `out`.
pub open spec fn ends_with(out: Seq<Outbound>, m: Seq<Outbound>) -> bool {
    out.len() >= m.len() && out.subrange(out.len() - m.len(), out.len() as int) == m
}

proof fn lemma_find_face_same(f1: Seq<FaceState>, f2: Seq<FaceState>, z: ZenohId)
    requires
        f1.len() == f2.len(),
        forall|f: int| 0 <= f < f1.len() ==> (#[trigger] f1[f]).zid == f2[f].zid,
    ensures
        find_face(f1, z) == find_face(f2, z),
    decreases f1.len(),
{
    if f1.len() > 0 {
        assert forall|f: int| 0 <= f < f1.drop_last().len() implies (#[trigger] f1.drop_last()[f]).zid == f2.drop_last()[f].zid by {
            assert(f1[f].zid == f2[f].zid);
        }
        lemma_find_face_same(f1.drop_last(), f2.drop_last(), z);
        assert(f1.last().zid == f2.last().zid);
    }
}

proof fn lemma_sourced_msgs_same(t1: Tables, t2: Tables, net: Network, children: Seq<usize>, src: Option<usize>, body: Declaration, node_id: u16)
    requires
        t1.faces@.len() == t2.faces@.len(),
        forall|f: int| 0 <= f < t1.faces@.len() ==> (#[trigger] t1.faces@[f]).zid == t2.faces@[f].zid,
    ensures
        sourced_msgs(t1, net, children, src, body, node_id) == sourced_msgs(t2, net, children, src, body, node_id),
    decreases children.len(),
{
    if children.len() > 0 {
        lemma_sourced_msgs_same(t1, t2, net, children.drop_last(), src, body, node_id);
        let c = children.last() as int;
        if c < net.nodes@.len() {
            lemma_find_face_same(t1.faces@, t2.faces@, net.nodes@[c].zid);
        }
    }
}

proof fn lemma_sourced_from_same(t1: Tables, t2: Tables, body: Declaration, src: Option<usize>, source: ZenohId, net_type: WhatAmI)
    requires
        t1.routers_net == t2.routers_net,
        t1.peers_net == t2.peers_net,
        t1.faces@.len() == t2.faces@.len(),
        forall|f: int| 0 <= f < t1.faces@.len() ==> (#[trigger] t1.faces@[f]).zid == t2.faces@[f].zid,
    ensures
        sourced_from(t1, body, src, source, net_type) == sourced_from(t2, body, src, source, net_type),
{
    match net_of(t1, net_type) {
        Some(net) => {
            let sid = find_node(net.nodes@, source);
            if sid >= 0 && sid < net.trees@.len() {
                lemma_sourced_msgs_same(t1, t2, net, net.trees@[sid]@, src, body, sid as u16);
            }
        },
        None => {},
    }
}

/// Removes router `router` from the router scope of `res`, if it is there,
/// and withdraws it along the router tree of `router`.
pub fn undeclare_router_subscription(
    t: &mut Tables,
    face: Option<usize>,
    res: usize,
    router: ZenohId,
    out: &mut Vec<Outbound>,
)
    requires
        res < old(t).resources@.len(),
    ensures
        forget_frame(*old(t), *final(t), res as int),
        forall|y: ZenohId| final(t).resources@[res as int].router_subs@.contains(y) <==> old(t).resources@[res as int].router_subs@.contains(y) && y != router,
        forall|y: ZenohId| final(t).resources@[res as int].peer_subs@.contains(y) ==> old(t).resources@[res as int].peer_subs@.contains(y),
        old(t).resources@[res as int].router_subs@.contains(router) && final(t).resources@[res as int].router_subs@.len() == 0
            ==> nobody_hears(*final(t), res as int),
        withdrawn(*old(t), *final(t), old(out)@, final(out)@, res as int),
        old(t).resources@[res as int].router_subs@.contains(router) && final(t).resources@[res as int].router_subs@.len() == 0
            ==> !final(t).router_subs@.contains(res),
        forall|x: usize| final(t).router_subs@.contains(x) ==> old(t).router_subs@.contains(x),
        old(t).resources@[res as int].router_subs@.contains(router) ==> ends_with(final(out)@,
            sourced_from(*old(t), (Declaration::UndeclareSubscriber { res }), face, router, WhatAmI::Router)),
{
    if contains_zid(&t.resources[res].router_subs, router) {
        let ghost t0 = *t;
        let ghost o0 = out@;
        unregister_router_subscription(t, res, router, out);
        let ghost t1 = *t;
        let ghost o1 = out@;
        propagate_sourced(t, Declaration::UndeclareSubscriber { res }, face, router, WhatAmI::Router, out);
        proof {
            lemma_sourced_from_same(t0, t1, Declaration::UndeclareSubscriber { res }, face, router, WhatAmI::Router);
            let m = sourced_from(t0, Declaration::UndeclareSubscriber { res }, face, router, WhatAmI::Router);
            assert(out@.subrange(out@.len() - m.len(), out@.len() as int) =~= m);
            assert(out@.subrange(0, o1.len() as int) =~= o1);
            lemma_withdrawn_none(t1, *t, o1, out@, res as int);
            lemma_withdrawn_trans(t0, t1, *t, o0, o1, out@, res as int);
        }
    } else {
        assert(forget_frame(*old(t), *t, res as int));
        proof { lemma_withdrawn_same(*t, *t, out@, res as int); }
    }
}

} // verus!

verus! {

/// Clears the client subscription of `face` on `res` and drops `res` from
/// the face's remote declarations.
fn clear_client_subscription(t: &mut Tables, face: usize, res: usize)
    requires
        face < old(t).faces@.len(),
        res < old(t).resources@.len(),
    ensures
        final(t).zid == old(t).zid,
        final(t).whatami == old(t).whatami,
        final(t).full_peer_net == old(t).full_peer_net,
        final(t).routers_net == old(t).routers_net,
        final(t).peers_net == old(t).peers_net,
        final(t).faces@.len() == old(t).faces@.len(),
        final(t).resources@.len() == old(t).resources@.len(),
        forall|f: int| 0 <= f < old(t).faces@.len() ==> (#[trigger] final(t).faces@[f]).local_subs == old(t).faces@[f].local_subs
            && final(t).faces@[f].zid == old(t).faces@[f].zid && final(t).faces@[f].whatami == old(t).faces@[f].whatami
            && final(t).faces@[f].id == old(t).faces@[f].id,
        forall|r: int| 0 <= r < old(t).resources@.len() && r != res ==> #[trigger] final(t).resources@[r] == old(t).resources@[r],
        final(t).resources@[res as int].router_subs == old(t).resources@[res as int].router_subs,
        final(t).resources@[res as int].peer_subs == old(t).resources@[res as int].peer_subs,
        final(t).resources@[res as int].expr == old(t).resources@[res as int].expr,
        !final(t).faces@[face as int].remote_subs@.contains(res),
        !client_sub(*final(t), res as int, face),
{
    let old_ctxs = copy_ctxs(&t.resources[res].session_ctxs);
    let mut ctxs: Vec<SessionContext> = Vec::new();
    let mut k: usize = 0;
    while k < old_ctxs.len()
        invariant
            k <= old_ctxs@.len(),
            ctxs@.len() == k,
            forall|j: int| 0 <= j < k ==> (#[trigger] ctxs@[j]).face == face ==> ctxs@[j].subs is None,
        decreases old_ctxs@.len() - k,
    {
        let c = old_ctxs[k];
        if c.face == face {
            ctxs.push(SessionContext { face: c.face, subs: None, qabl: c.qabl });
        } else {
            ctxs.push(c);
        }
        k = k + 1;
    }
    t.set_session_ctxs(res, ctxs);
    let v = remove_all(&t.faces[face].remote_subs, res);
    t.set_remote_subs(face, v);
}

/// The conditions under which withdrawing the last client subscription on
/// `res` leaves no face hearing of it: no other registration remains, and
/// this node's own registration is in the scope it uses.
pub open spec fn last_subscriber_gone(t_before: Tables, t_after: Tables, res: int) -> bool {
    &&& client_sub_faces(t_after.resources@[res].session_ctxs@).len() == 0
    &&& !has_remote_router_subs(t_before, res)
    &&& !has_remote_peer_subs(t_before, res)
    &&& (t_before.whatami == WhatAmI::Router ==> t_before.resources@[res].router_subs@.contains(t_before.zid))
    &&& (t_before.whatami == WhatAmI::Peer && t_before.full_peer_net
        ==> t_before.resources@[res].peer_subs@.contains(t_before.zid))
}

/// Withdraws the client subscription of `face` on `res`, and the
/// declarations this node made on its behalf once no subscriber needs
/// them. A face or resource that does not exist makes the call void.
pub fn forget_client_subscription(t: &mut Tables, face: usize, res: usize, out: &mut Vec<Outbound>)
    ensures
        !(face < old(t).faces@.len() && res < old(t).resources@.len()) ==> *final(t) == *old(t) && final(out)@ == old(out)@,
        face < old(t).faces@.len() && res < old(t).resources@.len() ==> {
            &&& !final(t).faces@[face as int].remote_subs@.contains(res)
            &&& forall|f: int, y: usize|
                0 <= f < old(t).faces@.len() && #[trigger] final(t).faces@[f].local_subs@.contains(y)
                    ==> old(t).faces@[f].local_subs@.contains(y)
            &&& forall|f: int, y: usize|
                0 <= f < old(t).faces@.len() && y != res && #[trigger] old(t).faces@[f].local_subs@.contains(y)
                    ==> final(t).faces@[f].local_subs@.contains(y)
            &&& (last_subscriber_gone(*old(t), *final(t), res as int) ==> nobody_hears(*final(t), res as int))
            &&& withdrawn(*old(t), *final(t), old(out)@, final(out)@, res as int)
            &&& !client_sub(*final(t), res as int, face)
        },
{
    if face >= t.faces.len() || res >= t.resources.len() {
        return;
    }
    let ghost t0 = *t;
    let ghost o0 = out@;
    clear_client_subscription(t, face, res);
    let ghost t1 = *t;
    proof { lemma_withdrawn_same(t0, t1, o0, res as int); }
    assert(forget_frame(t1, t1, res as int));
    let clients = client_subs(t, res);
    let router_rem = remote_router_subs(t, res);
    let peer_rem = remote_peer_subs(t, res);
    let zid = t.zid;
    match t.whatami {
        WhatAmI::Router => {
            if clients.len() == 0 && !peer_rem {
                undeclare_router_subscription(t, None, res, zid, out);
                proof {
                    if !has_remote_router_subs(t1, res as int) {
                        lemma_none_left(t.resources@[res as int].router_subs@, t1.resources@[res as int].router_subs@, zid);
                    }
                }
            } else {
                propagate_forget_simple_subscription_to_peers(t, res, out);
            }
        },
        WhatAmI::Peer => {
            if clients.len() == 0 {
                if t.full_peer_net {
                    undeclare_peer_subscription(t, None, res, zid, out);
                    proof {
                        if !has_remote_peer_subs(t1, res as int) {
                            lemma_none_left(t.resources@[res as int].peer_subs@, t1.resources@[res as int].peer_subs@, zid);
                        }
                    }
                } else {
                    propagate_forget_simple_subscription(t, res, out);
                    proof { lemma_forget_simple_frame(t1, *t, res as int); }
                }
            } else {
                proof { lemma_withdrawn_same(t1, *t, o0, res as int); }
            }
        },
        WhatAmI::Client => {
            if clients.len() == 0 {
                propagate_forget_simple_subscription(t, res, out);
                proof { lemma_forget_simple_frame(t1, *t, res as int); }
            } else {
                proof { lemma_withdrawn_same(t1, *t, o0, res as int); }
            }
        },
    }
    let ghost t2 = *t;
    let ghost o2 = out@;
    assert(withdrawn(t1, t2, o0, o2, res as int));
    assert(forget_frame(t1, t2, res as int));
    if clients.len() == 1 && !router_rem && !peer_rem {
        let f = clients[0];
        if f < t.faces.len() && contains_index(&t.faces[f].local_subs, res) {
            let live = starts_with_liveliness(&t.resources[res].expr);
            if !(t.faces[f].whatami == WhatAmI::Client && live) {
                let v = remove_all(&t.faces[f].local_subs, res);
                t.set_local_subs(f, v);
                out.push(Outbound { face: f, node_id: 0, body: Declaration::UndeclareSubscriber { res } });
                proof {
                    assert(out@ == o2.push(undecl_msg(f as int, res)));
                    lemma_withdrawn_step(t2, *t, o2, f as int, res as int);
                    lemma_withdrawn_trans(t1, t2, *t, o0, o2, out@, res as int);
                    assert forall|g: int| 0 <= g < t2.faces@.len() implies (#[trigger] t.faces@[g]).zid == t2.faces@[g].zid
                        && t.faces@[g].whatami == t2.faces@[g].whatami && t.faces@[g].id == t2.faces@[g].id
                        && t.faces@[g].remote_subs == t2.faces@[g].remote_subs by {}
                    assert forall|g: int, y: usize| 0 <= g < t2.faces@.len() && #[trigger] t.faces@[g].local_subs@.contains(y)
                        implies t2.faces@[g].local_subs@.contains(y) by {}
                    assert forall|g: int, y: usize| 0 <= g < t2.faces@.len() && y != res && #[trigger] t2.faces@[g].local_subs@.contains(y)
                        implies t.faces@[g].local_subs@.contains(y) by {}
                    assert(forget_frame(t2, *t, res as int));
                    lemma_forget_trans(t1, t2, *t, res as int);
                }
            }
        }
    }
    proof {
        if out@ == o2 && forall|g: int| 0 <= g < t2.faces@.len() ==> (#[trigger] t.faces@[g]).local_subs == t2.faces@[g].local_subs {
            lemma_withdrawn_same(t2, *t, o2, res as int);
            lemma_withdrawn_trans(t1, t2, *t, o0, o2, out@, res as int);
        }
        lemma_withdrawn_trans(t0, t1, *t, o0, o0, out@, res as int);
        if !(clients.len() == 1 && !router_rem && !peer_rem) {
            assert(forget_frame(t2, *t, res as int));
            lemma_forget_trans(t1, t2, *t, res as int);
        }
        assert(forget_frame(t1, *t, res as int));
        assert forall|f: int, y: usize|
            0 <= f < t0.faces@.len() && #[trigger] t.faces@[f].local_subs@.contains(y) implies t0.faces@[f].local_subs@.contains(y) by {
            assert(t1.faces@[f].local_subs@.contains(y));
        }
        assert forall|f: int, y: usize|
            0 <= f < t0.faces@.len() && y != res && #[trigger] t0.faces@[f].local_subs@.contains(y) implies t.faces@[f].local_subs@.contains(y) by {
            assert(t1.faces@[f].local_subs == t0.faces@[f].local_subs);
        }
        assert(t.resources@[res as int].session_ctxs == t1.resources@[res as int].session_ctxs);
        assert(!client_sub(*t, res as int, face));
        assert(!t.faces@[face as int].remote_subs@.contains(res)) by {
            assert(t.faces@[face as int].remote_subs == t1.faces@[face as int].remote_subs);
        }
        if last_subscriber_gone(t0, *t, res as int) {
            assert(t.resources@[res as int].session_ctxs == t1.resources@[res as int].session_ctxs);
            assert(clients@.len() == 0);
            assert(!has_remote_router_subs(t1, res as int));
            assert(!has_remote_peer_subs(t1, res as int));
        }
    }
}

/// Withdraws the subscription router `router` declared on `res`, heard on
/// face `face`. A face or resource that does not exist makes the call void.
pub fn forget_router_subscription(t: &mut Tables, face: usize, res: usize, router: ZenohId, out: &mut Vec<Outbound>)
    ensures
        !(face < old(t).faces@.len() && res < old(t).resources@.len()) ==> *final(t) == *old(t) && final(out)@ == old(out)@,
        face < old(t).faces@.len() && res < old(t).resources@.len() ==> {
            &&& forget_frame(*old(t), *final(t), res as int)
            &&& !final(t).resources@[res as int].router_subs@.contains(router)
            &&& withdrawn(*old(t), *final(t), old(out)@, final(out)@, res as int)
            &&& (old(t).resources@[res as int].router_subs@.contains(router) ==> ends_with(final(out)@,
                sourced_from(*old(t), (Declaration::UndeclareSubscriber { res }), Some(face), router, WhatAmI::Router)))
            &&& (old(t).resources@[res as int].router_subs@.contains(router) && final(t).resources@[res as int].router_subs@.len() == 0
                ==> nobody_hears(*final(t), res as int) && !final(t).router_subs@.contains(res))
        },
{
    if face >= t.faces.len() || res >= t.resources.len() {
        return;
    }
    undeclare_router_subscription(t, Some(face), res, router, out);
}

/// Withdraws the subscription peer `peer` declared on `res`, heard on face
/// `face`; a router also withdraws its own router-scope registration once
/// no client or other peer subscribes. A face or resource that does not
/// exist makes the call void.
pub fn forget_peer_subscription(t: &mut Tables, face: usize, res: usize, peer: ZenohId, out: &mut Vec<Outbound>)
    ensures
        !(face < old(t).faces@.len() && res < old(t).resources@.len()) ==> *final(t) == *old(t) && final(out)@ == old(out)@,
        face < old(t).faces@.len() && res < old(t).resources@.len() ==> {
            &&& forget_frame(*old(t), *final(t), res as int)
            &&& !final(t).resources@[res as int].peer_subs@.contains(peer)
            &&& withdrawn(*old(t), *final(t), old(out)@, final(out)@, res as int)
            &&& (old(t).whatami == WhatAmI::Router && client_sub_faces(old(t).resources@[res as int].session_ctxs@).len() == 0
                && !other_peer_subs(*old(t), res as int, peer)
                ==> !final(t).resources@[res as int].router_subs@.contains(old(t).zid))
            &&& (old(t).whatami == WhatAmI::Router && client_sub_faces(old(t).resources@[res as int].session_ctxs@).len() == 0
                && !other_peer_subs(*old(t), res as int, peer) && !has_remote_router_subs(*old(t), res as int)
                && old(t).resources@[res as int].router_subs@.contains(old(t).zid)
                ==> nobody_hears(*final(t), res as int))
        },
{
    if face >= t.faces.len() || res >= t.resources.len() {
        return;
    }
    let ghost t0 = *t;
    let ghost o0 = out@;
    undeclare_peer_subscription(t, Some(face), res, peer, out);
    if t.whatami == WhatAmI::Router {
        let clients = client_subs(t, res);
        let peer_rem = remote_peer_subs(t, res);
        proof {
            if !other_peer_subs(t0, res as int, peer) && has_remote_peer_subs(*t, res as int) {
                let k = choose|k: int| 0 <= k < t.resources@[res as int].peer_subs@.len() && #[trigger] t.resources@[res as int].peer_subs@[k] != t.zid;
                let y = t.resources@[res as int].peer_subs@[k];
                assert(t.resources@[res as int].peer_subs@.contains(y));
                assert(t0.resources@[res as int].peer_subs@.contains(y) && y != peer);
                let j = choose|j: int| 0 <= j < t0.resources@[res as int].peer_subs@.len() && t0.resources@[res as int].peer_subs@[j] == y;
                assert(other_peer_subs(t0, res as int, peer));
            }
        }
        if clients.len() == 0 && !peer_rem {
            let ghost t1 = *t;
            let ghost o1 = out@;
            let zid = t.zid;
            undeclare_router_subscription(t, None, res, zid, out);
            proof {
                lemma_forget_trans(t0, t1, *t, res as int);
                lemma_withdrawn_trans(t0, t1, *t, o0, o1, out@, res as int);
                if !has_remote_router_subs(t0, res as int) {
                    lemma_none_left(t.resources@[res as int].router_subs@, t1.resources@[res as int].router_subs@, zid);
                }
            }
        }
    }
}

/// Some peer other than `peer` and this node subscribes to `res`.
pub open spec fn other_peer_subs(t: Tables, res: int, peer: ZenohId) -> bool {
    exists|k: int| 0 <= k < t.resources@[res].peer_subs@.len() && #[trigger] t.resources@[res].peer_subs@[k] != t.zid
        && t.resources@[res].peer_subs@[k] != peer
}

} // verus!

verus! {

/// Removes node `node`, which left the network of kind `net_type`, from
/// the router or peer scope of every resource, withdrawing what this node
/// declared on its behalf.
pub fn pubsub_remove_node(t: &mut Tables, node: ZenohId, net_type: WhatAmI, out: &mut Vec<Outbound>)
    ensures
        final(t).faces@.len() == old(t).faces@.len(),
        final(t).resources@.len() == old(t).resources@.len(),
        net_type == WhatAmI::Router ==> forall|r: int|
            0 <= r < final(t).resources@.len() ==> !(#[trigger] final(t).resources@[r].router_subs@.contains(node)),
        net_type == WhatAmI::Router ==> forall|r: int, y: ZenohId|
            0 <= r < final(t).resources@.len() && y != node ==> (#[trigger] final(t).resources@[r].router_subs@.contains(y)
                <==> old(t).resources@[r].router_subs@.contains(y)),
        net_type == WhatAmI::Router ==> forall|r: int|
            0 <= r < final(t).resources@.len() && #[trigger] old(t).resources@[r].router_subs@.contains(node)
                && final(t).resources@[r].router_subs@.len() == 0 ==> !final(t).router_subs@.contains(r as usize),
        net_type == WhatAmI::Router ==> forall|r: int|
            0 <= r < final(t).resources@.len() && #[trigger] old(t).resources@[r].router_subs@.contains(node)
                && final(t).resources@[r].router_subs@.len() == 0 ==> nobody_hears(*final(t), r),
        net_type == WhatAmI::Router ==> forall|r: int|
            0 <= r < final(t).resources@.len() && #[trigger] old(t).router_subs@.contains(r as usize)
                && final(t).resources@[r].router_subs@.len() > 0 ==> final(t).router_subs@.contains(r as usize),
        net_type == WhatAmI::Peer ==> forall|r: int|
            0 <= r < final(t).resources@.len() ==> !(#[trigger] final(t).resources@[r].peer_subs@.contains(node)),
        forall|f: int, y: usize|
            0 <= f < old(t).faces@.len() && #[trigger] final(t).faces@[f].local_subs@.contains(y)
                ==> old(t).faces@[f].local_subs@.contains(y),
{
    let ghost t0 = *t;
    if net_type == WhatAmI::Client {
        return;
    }
    let mut r: usize = 0;
    while r < t.resources.len()
        invariant
            r <= t.resources@.len(),
            t.resources@.len() == t0.resources@.len(),
            t.faces@.len() == t0.faces@.len(),
            t.whatami == t0.whatami,
            t.zid == t0.zid,
            net_type != WhatAmI::Client,
            net_type == WhatAmI::Router ==> forall|q: int| 0 <= q < r ==> !(#[trigger] t.resources@[q].router_subs@.contains(node)),
            net_type == WhatAmI::Router ==> forall|q: int, y: ZenohId|
                0 <= q < t0.resources@.len() && y != node ==> (#[trigger] t.resources@[q].router_subs@.contains(y)
                    <==> t0.resources@[q].router_subs@.contains(y)),
            net_type == WhatAmI::Router ==> forall|q: int|
                0 <= q < r && #[trigger] t0.resources@[q].router_subs@.contains(node)
                    && t.resources@[q].router_subs@.len() == 0 ==> !t.router_subs@.contains(q as usize),
            net_type == WhatAmI::Router ==> forall|q: int| r <= q < t0.resources@.len() ==> #[trigger] t.resources@[q] == t0.resources@[q],
            net_type == WhatAmI::Router ==> forall|q: int|
                0 <= q < r && #[trigger] t0.resources@[q].router_subs@.contains(node)
                    && t.resources@[q].router_subs@.len() == 0 ==> nobody_hears(*t, q),
            net_type == WhatAmI::Router ==> forall|q: int|
                0 <= q < t0.resources@.len() && #[trigger] t0.router_subs@.contains(q as usize)
                    && t.resources@[q].router_subs@.len() > 0 ==> t.router_subs@.contains(q as usize),
            net_type == WhatAmI::Peer ==> forall|q: int| 0 <= q < r ==> !(#[trigger] t.resources@[q].peer_subs@.contains(node)),
            forall|f: int, y: usize|
                0 <= f < t0.faces@.len() && #[trigger] t.faces@[f].local_subs@.contains(y) ==> t0.faces@[f].local_subs@.contains(y),
        decreases t.resources@.len() - r,
    {
        let ghost before = *t;
        if net_type == WhatAmI::Router {
            if contains_zid(&t.resources[r].router_subs, node) {
                unregister_router_subscription(t, r, node, out);
            }
            assert(forget_frame(before, *t, r as int));
            assert(!t.resources@[r as int].router_subs@.contains(node));
            assert forall|q: int| 0 <= q < r + 1 implies !(#[trigger] t.resources@[q].router_subs@.contains(node)) by {
                if q < r {
                    assert(t.resources@[q] == before.resources@[q]);
                }
            }
            assert forall|q: int, y: ZenohId|
                0 <= q < t0.resources@.len() && y != node implies (#[trigger] t.resources@[q].router_subs@.contains(y)
                    <==> t0.resources@[q].router_subs@.contains(y)) by {
                if q != r as int {
                    assert(t.resources@[q] == before.resources@[q]);
                }
                assert(before.resources@[q].router_subs@.contains(y) <==> t0.resources@[q].router_subs@.contains(y));
            }
            assert forall|q: int|
                0 <= q < r + 1 && #[trigger] t0.resources@[q].router_subs@.contains(node)
                    && t.resources@[q].router_subs@.len() == 0 implies !t.router_subs@.contains(q as usize) by {
                if q < r {
                    assert(t.resources@[q] == before.resources@[q]);
                    assert(!before.router_subs@.contains(q as usize));
                } else {
                    assert(before.resources@[q] == t0.resources@[q]);
                }
            }
            assert forall|q: int| r + 1 <= q < t0.resources@.len() implies #[trigger] t.resources@[q] == t0.resources@[q] by {
                assert(t.resources@[q] == before.resources@[q]);
            }
            assert forall|q: int|
                0 <= q < r + 1 && #[trigger] t0.resources@[q].router_subs@.contains(node)
                    && t.resources@[q].router_subs@.len() == 0 implies nobody_hears(*t, q) by {
                if q < r {
                    assert(t.resources@[q] == before.resources@[q]);
                    assert(nobody_hears(before, q));
                    assert forall|f: int| 0 <= f < t.faces@.len() implies !(#[trigger] t.faces@[f].local_subs@.contains(q as usize)) by {
                        if t.faces@[f].local_subs@.contains(q as usize) {
                            assert(before.faces@[f].local_subs@.contains(q as usize));
                        }
                    }
                } else {
                    assert(before.resources@[q] == t0.resources@[q]);
                }
            }
            assert forall|q: int|
                0 <= q < t0.resources@.len() && #[trigger] t0.router_subs@.contains(q as usize)
                    && t.resources@[q].router_subs@.len() > 0 implies t.router_subs@.contains(q as usize) by {
                if q != r as int {
                    assert(t.resources@[q] == before.resources@[q]);
                    assert(before.router_subs@.contains(q as usize));
                } else if t.resources@[q].router_subs == before.resources@[q].router_subs {
                    assert(before.router_subs@.contains(q as usize));
                } else {
                    assert(before.router_subs@.contains(q as usize));
                }
            }
        } else {
            if contains_zid(&t.resources[r].peer_subs, node) {
                unregister_peer_subscription(t, r, node, out);
                if t.whatami == WhatAmI::Router {
                    let clients = client_subs(t, r);
                    let peer_rem = remote_peer_subs(t, r);
                    if clients.len() == 0 && !peer_rem {
                        let ghost mid = *t;
                        let zid = t.zid;
                        undeclare_router_subscription(t, None, r, zid, out);
                        proof { lemma_forget_trans(before, mid, *t, r as int); }
                    }
                }
            }
            assert(forget_frame(before, *t, r as int));
            assert(!t.resources@[r as int].peer_subs@.contains(node));
            assert forall|q: int| 0 <= q < r + 1 implies !(#[trigger] t.resources@[q].peer_subs@.contains(node)) by {
                if q < r {
                    assert(t.resources@[q] == before.resources@[q]);
                }
            }
        }
        assert forall|f: int, y: usize|
            0 <= f < t0.faces@.len() && #[trigger] t.faces@[f].local_subs@.contains(y) implies t0.faces@[f].local_subs@.contains(y) by {
            assert(before.faces@[f].local_subs@.contains(y));
        }
        r = r + 1;
    }
}

/// Some face holding a client subscription on `res` is a client, or a
/// peer that `d` reaches only through this node.
pub open spec fn bridged_any(t: Tables, res: int, d: int) -> bool {
    exists|k: int|
        0 <= k < t.resources@[res].session_ctxs@.len() && {
            let s = #[trigger] t.resources@[res].session_ctxs@[k];
            &&& (s.face as int) < t.faces@.len()
            &&& s.subs is Some
            &&& (t.faces@[s.face as int].whatami == WhatAmI::Client || (t.faces@[s.face as int].whatami
                == WhatAmI::Peer && brokering(t.peers_net, t.faces@[s.face as int].zid, t.faces@[d].zid)))
        }
}

fn sub_bridged_any(t: &Tables, res: usize, d: usize) -> (r: bool)
    requires
        res < t.resources@.len(),
        d < t.faces@.len(),
    ensures
        r == bridged_any(*t, res as int, d as int),
{
    let ctxs = &t.resources[res].session_ctxs;
    let mut k: usize = 0;
    while k < ctxs.len()
        invariant
            k <= ctxs@.len(),
            d < t.faces@.len(),
            ctxs@ == t.resources@[res as int].session_ctxs@,
            forall|j: int| 0 <= j < k ==> !({
                let s = #[trigger] ctxs@[j];
                &&& (s.face as int) < t.faces@.len()
                &&& s.subs is Some
                &&& (t.faces@[s.face as int].whatami == WhatAmI::Client || (t.faces@[s.face as int].whatami
                    == WhatAmI::Peer && brokering(t.peers_net, t.faces@[s.face as int].zid, t.faces@[d as int].zid)))
            }),
        decreases ctxs@.len() - k,
    {
        let s = ctxs[k];
        if s.face < t.faces.len() && s.subs.is_some() {
            let role = t.faces[s.face].whatami;
            if role == WhatAmI::Client || (role == WhatAmI::Peer && t.failover_brokering(t.faces[s.face].zid, t.faces[d].zid)) {
                assert(ctxs@[k as int] == s);
                return true;
            }
        }
        k = k + 1;
    }
    false
}

/// The subscription info used when re-announcing subscriptions to a new
/// face.
pub open spec fn default_sub_info() -> SubscriberInfo {
    SubscriberInfo { reliability: crate::tables::Reliability::Reliable, mode: Mode::Push }
}

/// The declarations that tell face `face` of each resource of `rs`.
pub open spec fn heard_msgs(face: int, rs: Seq<usize>) -> Seq<Outbound> {
    rs.map_values(|r: usize| sub_msg(face, r as int, default_sub_info()))
}

/// Whether a new face `face` hears of resource `res` of the global index:
/// on a router, a client face hears of every one, a peer face of a partial
/// mesh of those another router declared or that a client, or a peer that
/// needs this node as a broker, declared; on a peer of a full mesh, a
/// client face hears of every one.
pub open spec fn index_sends(t: Tables, face: int, res: usize) -> bool {
    let role = t.faces@[face].whatami;
    if t.whatami == WhatAmI::Router {
        role == WhatAmI::Client || (role == WhatAmI::Peer && !t.full_peer_net && (res as int) < t.resources@.len()
            && (has_remote_router_subs(t, res as int) || bridged_any(t, res as int, face)))
    } else {
        role == WhatAmI::Client
    }
}

/// The resources of `idx` that a new face hears of, in order.
pub open spec fn index_heard(t: Tables, face: int, idx: Seq<usize>) -> Seq<usize>
    decreases idx.len(),
{
    if idx.len() == 0 {
        Seq::empty()
    } else if index_sends(t, face, idx.last()) {
        index_heard(t, face, idx.drop_last()).push(idx.last())
    } else {
        index_heard(t, face, idx.drop_last())
    }
}

/// The global subscription index a new face hears from: the router index
/// on a router, the peer index otherwise.
pub open spec fn new_face_index(t: Tables) -> Seq<usize> {
    if t.whatami == WhatAmI::Router { t.router_subs@ } else { t.peer_subs@ }
}

/// A subscription on `res` that face `src` declared reaches a new face
/// `face` that has heard of the resources `l`.
pub open spec fn repro_step(t: Tables, l: Seq<usize>, face: int, src: int, res: usize) -> bool {
    &&& (res as int) < t.resources@.len()
    &&& (src != face || is_liveliness(t.resources@[res as int].expr@))
    &&& !l.contains(res)
    &&& sub_allowed(
        t.whatami,
        false,
        t.faces@[src].whatami,
        t.faces@[face].whatami,
        brokering(t.peers_net, t.faces@[src].zid, t.faces@[face].zid),
    )
}

/// The resources of `rs`, declared by face `src`, that a new face hears of
/// when it has already heard of `l`.
pub open spec fn repro_res(t: Tables, face: int, src: int, rs: Seq<usize>, l: Seq<usize>) -> Seq<usize>
    decreases rs.len(),
{
    if rs.len() == 0 {
        Seq::empty()
    } else {
        let h = repro_res(t, face, src, rs.drop_last(), l);
        if repro_step(t, l + h, face, src, rs.last()) {
            h.push(rs.last())
        } else {
            h
        }
    }
}

/// The resources a new face hears of from the declarations of faces
/// `0..n`, when it has already heard of `l`.
pub open spec fn repro_faces(t: Tables, face: int, n: int, l: Seq<usize>) -> Seq<usize>
    decreases n,
{
    if n <= 0 {
        Seq::empty()
    } else {
        let h = repro_faces(t, face, n - 1, l);
        h + repro_res(t, face, n - 1, t.faces@[n - 1].remote_subs@, l + h)
    }
}

/// Everything a new face `face` hears of.
pub open spec fn new_face_heard(t: Tables, face: int) -> Seq<usize> {
    if t.whatami == WhatAmI::Router || (t.whatami == WhatAmI::Peer && t.full_peer_net) {
        index_heard(t, face, new_face_index(t))
    } else {
        repro_faces(t, face, t.faces@.len() as int, t.faces@[face].local_subs@)
    }
}

/// Announces to a new face the subscriptions of the global index it
/// should hear of.
fn index_new_face(t: &mut Tables, face: usize, out: &mut Vec<Outbound>)
    requires
        face < old(t).faces@.len(),
        old(t).whatami == WhatAmI::Router || (old(t).whatami == WhatAmI::Peer && old(t).full_peer_net),
    ensures
        same_but_local_subs(*old(t), *final(t)),
        forall|f: int| 0 <= f < old(t).faces@.len() && f != face ==> #[trigger] final(t).faces@[f] == old(t).faces@[f],
        final(t).faces@[face as int].local_subs@ == old(t).faces@[face as int].local_subs@ + index_heard(*old(t), face as int, new_face_index(*old(t))),
        final(out)@ == old(out)@ + heard_msgs(face as int, index_heard(*old(t), face as int, new_face_index(*old(t)))),
{
    let ghost t0 = *t;
    let ghost out0 = out@;
    let role = t.faces[face].whatami;
    let idx = if t.whatami == WhatAmI::Router { copy_indices(&t.router_subs) } else { copy_indices(&t.peer_subs) };
    let mut k: usize = 0;
    while k < idx.len()
        invariant
            k <= idx@.len(),
            face < t.faces@.len(),
            idx@ == new_face_index(t0),
            role == t0.faces@[face as int].whatami,
            same_but_local_subs(t0, *t),
            forall|f: int| 0 <= f < t0.faces@.len() && f != face ==> #[trigger] t.faces@[f] == t0.faces@[f],
            t.faces@[face as int].local_subs@ == t0.faces@[face as int].local_subs@ + index_heard(t0, face as int, idx@.subrange(0, k as int)),
            out@ == out0 + heard_msgs(face as int, index_heard(t0, face as int, idx@.subrange(0, k as int))),
        decreases idx@.len() - k,
    {
        let res = idx[k];
        assert(idx@.subrange(0, k + 1).drop_last() =~= idx@.subrange(0, k as int));
        let ghost h = index_heard(t0, face as int, idx@.subrange(0, k as int));
        let send = if role == WhatAmI::Client {
            true
        } else if t.whatami == WhatAmI::Router && role == WhatAmI::Peer && !t.full_peer_net && res < t.resources.len() {
            any_other(&t.resources[res].router_subs, t.zid) || sub_bridged_any(t, res, face)
        } else {
            false
        };
        proof {
            if t.whatami == WhatAmI::Router && role == WhatAmI::Peer && !t.full_peer_net && (res as int) < t.resources@.len() {
                assert(t.resources == t0.resources);
                assert forall|j: int| 0 <= j < t0.faces@.len() implies (#[trigger] t.faces@[j]).whatami == t0.faces@[j].whatami
                    && t.faces@[j].zid == t0.faces@[j].zid by {
                    assert(t.faces@[j] == (FaceState { local_subs: t.faces@[j].local_subs, ..t0.faces@[j] }));
                }
                assert(bridged_any(*t, res as int, face as int) == bridged_any(t0, res as int, face as int));
            }
        }
        assert(send == index_sends(t0, face as int, res));
        if send {
            let ghost before = *t;
            let mut v = copy_indices(&t.faces[face].local_subs);
            v.push(res);
            t.set_local_subs(face, v);
            out.push(Outbound { face, node_id: 0, body: Declaration::DeclareSubscriber { res, info: SubscriberInfo { reliability: crate::tables::Reliability::Reliable, mode: Mode::Push } } });
            assert(t.faces@[face as int].local_subs@ =~= t0.faces@[face as int].local_subs@ + h.push(res));
            assert(heard_msgs(face as int, h.push(res)) =~= heard_msgs(face as int, h).push(sub_msg(face as int, res as int, default_sub_info())));
            assert forall|f: int| 0 <= f < t0.faces@.len() implies #[trigger] t.faces@[f] == (FaceState {
                local_subs: t.faces@[f].local_subs,
                ..t0.faces@[f]
            }) by {
                assert(before.faces@[f] == (FaceState { local_subs: before.faces@[f].local_subs, ..t0.faces@[f] }));
            }
        }
        k = k + 1;
    }
    assert(idx@.subrange(0, k as int) =~= idx@);
}

proof fn lemma_repro_match(t0: Tables, t: Tables, face: int, src: int, res: usize)
    requires
        same_but_local_subs(t0, t),
        0 <= face < t0.faces@.len(),
        0 <= src < t0.faces@.len(),
        (res as int) < t0.resources@.len(),
    ensures
        simple_sub_to(t, face, res as int, src, false) == repro_step(t0, t.faces@[face].local_subs@, face, src, res),
{
    assert(t.faces@[src] == (FaceState { local_subs: t.faces@[src].local_subs, ..t0.faces@[src] }));
    assert(t.faces@[face] == (FaceState { local_subs: t.faces@[face].local_subs, ..t0.faces@[face] }));
}

/// Announces to a new face `face` every subscription that another face
/// declared to this node, as the role rules of a partial mesh allow.
fn repropagate_to_face(t: &mut Tables, face: usize, out: &mut Vec<Outbound>)
    requires
        face < old(t).faces@.len(),
    ensures
        same_but_local_subs(*old(t), *final(t)),
        forall|f: int| 0 <= f < old(t).faces@.len() && f != face ==> #[trigger] final(t).faces@[f] == old(t).faces@[f],
        final(t).faces@[face as int].local_subs@ == old(t).faces@[face as int].local_subs@ + repro_faces(
            *old(t), face as int, old(t).faces@.len() as int, old(t).faces@[face as int].local_subs@),
        final(out)@ == old(out)@ + heard_msgs(face as int, repro_faces(
            *old(t), face as int, old(t).faces@.len() as int, old(t).faces@[face as int].local_subs@)),
{
    let ghost t0 = *t;
    let ghost out0 = out@;
    let ghost l0 = t0.faces@[face as int].local_subs@;
    let info = SubscriberInfo { reliability: crate::tables::Reliability::Reliable, mode: Mode::Push };
    let mut src: usize = 0;
    while src < t.faces.len()
        invariant
            src <= t.faces@.len(),
            face < t.faces@.len(),
            info == default_sub_info(),
            same_but_local_subs(t0, *t),
            forall|f: int| 0 <= f < t0.faces@.len() && f != face ==> #[trigger] t.faces@[f] == t0.faces@[f],
            t.faces@[face as int].local_subs@ == l0 + repro_faces(t0, face as int, src as int, l0),
            out@ == out0 + heard_msgs(face as int, repro_faces(t0, face as int, src as int, l0)),
        decreases t.faces@.len() - src,
    {
        let ghost h = repro_faces(t0, face as int, src as int, l0);
        let ghost out_s = out@;
        assert(t.faces@[src as int] == (FaceState { local_subs: t.faces@[src as int].local_subs, ..t0.faces@[src as int] }));
        let subs = copy_indices(&t.faces[src].remote_subs);
        let mut k: usize = 0;
        while k < subs.len()
            invariant
                k <= subs@.len(),
                src < t.faces@.len(),
                face < t.faces@.len(),
                info == default_sub_info(),
                subs@ == t0.faces@[src as int].remote_subs@,
                same_but_local_subs(t0, *t),
                forall|f: int| 0 <= f < t0.faces@.len() && f != face ==> #[trigger] t.faces@[f] == t0.faces@[f],
                t.faces@[face as int].local_subs@ == l0 + h + repro_res(t0, face as int, src as int, subs@.subrange(0, k as int), l0 + h),
                out@ == out_s + heard_msgs(face as int, repro_res(t0, face as int, src as int, subs@.subrange(0, k as int), l0 + h)),
            decreases subs@.len() - k,
        {
            let res = subs[k];
            assert(subs@.subrange(0, k + 1).drop_last() =~= subs@.subrange(0, k as int));
            let ghost r = repro_res(t0, face as int, src as int, subs@.subrange(0, k as int), l0 + h);
            if res < t.resources.len() {
                let ghost before = *t;
                proof { lemma_repro_match(t0, before, face as int, src as int, res); }
                propagate_simple_subscription_to(t, face, res, info, src, false, out);
                proof {
                    if simple_sub_to(before, face as int, res as int, src as int, false) {
                        assert(t.faces@[face as int].local_subs@ =~= l0 + h + r.push(res));
                        assert(heard_msgs(face as int, r.push(res)) =~= heard_msgs(face as int, r).push(sub_msg(face as int, res as int, default_sub_info())));
                    }
                    assert(l0 + h + r == (l0 + h) + r) by {
                        assert(l0 + h + r =~= (l0 + h) + r);
                    }
                    assert forall|f: int| 0 <= f < t0.faces@.len() implies #[trigger] t.faces@[f] == (FaceState {
                        local_subs: t.faces@[f].local_subs,
                        ..t0.faces@[f]
                    }) by {
                        assert(before.faces@[f] == (FaceState { local_subs: before.faces@[f].local_subs, ..t0.faces@[f] }));
                    }
                }
            }
            k = k + 1;
        }
        assert(subs@.subrange(0, k as int) =~= subs@);
        proof {
            let r = repro_res(t0, face as int, src as int, subs@, l0 + h);
            assert(repro_faces(t0, face as int, src as int + 1, l0) == h + r);
            assert(l0 + h + r =~= l0 + (h + r));
            assert(heard_msgs(face as int, h + r) =~= heard_msgs(face as int, h) + heard_msgs(face as int, r));
        }
        src = src + 1;
    }
}

/// Announces to a new face `face` the subscriptions it should hear of (see
/// `new_face_heard`), one declaration each. A face that does not exist
/// makes the call void.
pub fn pubsub_new_face(t: &mut Tables, face: usize, out: &mut Vec<Outbound>)
    ensures
        same_but_local_subs(*old(t), *final(t)),
        forall|f: int| 0 <= f < old(t).faces@.len() && f != face ==> #[trigger] final(t).faces@[f] == old(t).faces@[f],
        !(face < old(t).faces@.len()) ==> *final(t) == *old(t) && final(out)@ == old(out)@,
        face < old(t).faces@.len() ==> {
            &&& final(t).faces@[face as int].local_subs@ == old(t).faces@[face as int].local_subs@ + new_face_heard(*old(t), face as int)
            &&& final(out)@ == old(out)@ + heard_msgs(face as int, new_face_heard(*old(t), face as int))
        },
{
    if face >= t.faces.len() {
        return;
    }
    if t.whatami == WhatAmI::Router || (t.whatami == WhatAmI::Peer && t.full_peer_net) {
        index_new_face(t, face, out);
    } else {
        repropagate_to_face(t, face, out);
    }
}

/// The subscription scope of kind `net_type` of resource `res` holds `z`.
pub open spec fn scope_has(t: Tables, res: int, z: ZenohId, net_type: WhatAmI) -> bool {
    if net_type == WhatAmI::Router {
        t.resources@[res].router_subs@.contains(z)
    } else {
        t.resources@[res].peer_subs@.contains(z)
    }
}

/// What a tree change sends for source `sid`, whose new children are
/// `children`, over the resources of `index`.
pub open spec fn tree_res_msgs(t: Tables, net: Network, children: Seq<usize>, sid: int, index: Seq<usize>, net_type: WhatAmI) -> Seq<Outbound>
    decreases index.len(),
{
    if index.len() == 0 {
        Seq::empty()
    } else {
        let rest = tree_res_msgs(t, net, children, sid, index.drop_last(), net_type);
        let res = index.last();
        if (res as int) < t.resources@.len() && scope_has(t, res as int, net.nodes@[sid].zid, net_type) {
            rest + sourced_msgs(t, net, children, None, Declaration::DeclareSubscriber { res, info: default_sub_info() }, sid as u16)
        } else {
            rest
        }
    }
}

/// What a tree change sends, source by source.
pub open spec fn tree_msgs(t: Tables, net: Network, new_children: Seq<Vec<usize>>, index: Seq<usize>, net_type: WhatAmI) -> Seq<Outbound>
    decreases new_children.len(),
{
    if new_children.len() == 0 {
        Seq::empty()
    } else {
        let sid = new_children.len() - 1;
        let rest = tree_msgs(t, net, new_children.drop_last(), index, net_type);
        if new_children.last()@.len() > 0 && sid < net.nodes@.len() {
            rest + tree_res_msgs(t, net, new_children.last()@, sid, index, net_type)
        } else {
            rest
        }
    }
}

/// The global index of the subscription scope of kind `net_type`.
pub open spec fn sub_index(t: Tables, net_type: WhatAmI) -> Seq<usize> {
    if net_type == WhatAmI::Router { t.router_subs@ } else { t.peer_subs@ }
}

/// After the spanning trees of the network of kind `net_type` changed,
/// sends each router- or peer-scope subscription declared by the source of
/// a tree to the new children of that source in its tree.
/// `new_children[sid]` lists the new children of source `sid`.
pub fn pubsub_tree_change(t: &Tables, new_children: &Vec<Vec<usize>>, net_type: WhatAmI, out: &mut Vec<Outbound>)
    ensures
        final(out)@ == old(out)@ + match net_of(*t, net_type) {
            Some(net) => tree_msgs(*t, net, new_children@, sub_index(*t, net_type), net_type),
            None => Seq::empty(),
        },
{
    let ghost out0 = out@;
    let net = match net_type {
        WhatAmI::Router => &t.routers_net,
        _ => &t.peers_net,
    };
    let net = match net {
        Some(n) => n,
        None => {
            assert(out@ =~= out0 + Seq::<Outbound>::empty());
            return;
        },
    };
    let index = match net_type {
        WhatAmI::Router => &t.router_subs,
        _ => &t.peer_subs,
    };
    assert(index@ == sub_index(*t, net_type));
    let mut sid: usize = 0;
    while sid < new_children.len()
        invariant
            sid <= new_children@.len(),
            net_of(*t, net_type) == Some(*net),
            index@ == sub_index(*t, net_type),
            out@ == out0 + tree_msgs(*t, *net, new_children@.subrange(0, sid as int), index@, net_type),
        decreases new_children@.len() - sid,
    {
        let children = &new_children[sid];
        let ghost out_s = out@;
        assert(new_children@.subrange(0, sid + 1).drop_last() =~= new_children@.subrange(0, sid as int));
        assert(new_children@.subrange(0, sid + 1).last() == *children);
        if children.len() > 0 && sid < net.nodes.len() {
            let tree_id = net.nodes[sid].zid;
            let mut k: usize = 0;
            while k < index.len()
                invariant
                    k <= index@.len(),
                    sid < net.nodes@.len(),
                    tree_id == net.nodes@[sid as int].zid,
                    out@ == out_s + tree_res_msgs(*t, *net, children@, sid as int, index@.subrange(0, k as int), net_type),
                decreases index@.len() - k,
            {
                let res = index[k];
                assert(index@.subrange(0, k + 1).drop_last() =~= index@.subrange(0, k as int));
                let ghost before = out@;
                if res < t.resources.len() {
                    let declared = match net_type {
                        WhatAmI::Router => contains_zid(&t.resources[res].router_subs, tree_id),
                        _ => contains_zid(&t.resources[res].peer_subs, tree_id),
                    };
                    if declared {
                        let info = SubscriberInfo { reliability: crate::tables::Reliability::Reliable, mode: Mode::Push };
                        send_sourced_to_net_children(t, net, children, None, Declaration::DeclareSubscriber { res, info }, sid as u16, out);
                    }
                }
                k = k + 1;
                assert(out@ =~= out_s + tree_res_msgs(*t, *net, children@, sid as int, index@.subrange(0, k as int), net_type));
            }
            assert(index@.subrange(0, k as int) =~= index@);
            assert(out@ =~= out0 + tree_msgs(*t, *net, new_children@.subrange(0, sid + 1), index@, net_type));
        } else {
            assert(out@ =~= out0 + tree_msgs(*t, *net, new_children@.subrange(0, sid + 1), index@, net_type));
        }
        sid = sid + 1;
    }
    assert(new_children@.subrange(0, sid as int) =~= new_children@);
}

} // verus!

verus! {

/// The links of node `z` in the peer network, or none.
pub open spec fn links_of(t: Tables, z: ZenohId) -> Seq<ZenohId> {
    match t.peers_net {
        Some(net) => {
            let i = find_node(net.nodes@, z);
            if i >= 0 { net.nodes@[i].links@ } else { Seq::empty() }
        },
        None => Seq::empty(),
    }
}

/// The links of node `z` in the peer network, or none.
pub fn peer_links(t: &Tables, z: ZenohId) -> (r: Vec<ZenohId>)
    ensures
        r@ == links_of(*t, z),
{
    match &t.peers_net {
        Some(net) => match get_idx(net, z) {
            Some(i) => copy_zids(&net.nodes[i].links),
            None => Vec::new(),
        },
        None => Vec::new(),
    }
}

/// Some peer face with a client subscription on `res` is not among `links`.
pub open spec fn sub_outside(t: Tables, res: int, links: Seq<ZenohId>) -> bool {
    exists|k: int|
        0 <= k < t.resources@[res].session_ctxs@.len() && {
            let c = #[trigger] t.resources@[res].session_ctxs@[k];
            &&& (c.face as int) < t.faces@.len()
            &&& t.faces@[c.face as int].whatami == WhatAmI::Peer
            &&& c.subs is Some
            &&& brokering_to(links, t.faces@[c.face as int].zid)
        }
}

fn peer_sub_outside(t: &Tables, res: usize, links: &Vec<ZenohId>) -> (r: bool)
    requires
        res < t.resources@.len(),
    ensures
        r == sub_outside(*t, res as int, links@),
{
    let ctxs = &t.resources[res].session_ctxs;
    let mut k: usize = 0;
    while k < ctxs.len()
        invariant
            k <= ctxs@.len(),
            ctxs@ == t.resources@[res as int].session_ctxs@,
            forall|j: int| 0 <= j < k ==> !({
                let c = #[trigger] ctxs@[j];
                &&& (c.face as int) < t.faces@.len()
                &&& t.faces@[c.face as int].whatami == WhatAmI::Peer
                &&& c.subs is Some
                &&& brokering_to(links@, t.faces@[c.face as int].zid)
            }),
        decreases ctxs@.len() - k,
    {
        let c = ctxs[k];
        if c.face < t.faces.len() && t.faces[c.face].whatami == WhatAmI::Peer && c.subs.is_some()
            && crate::tables::failover_brokering_to(links, t.faces[c.face].zid) {
            assert(ctxs@[k as int] == c);
            return true;
        }
        k = k + 1;
    }
    false
}

/// Some client face holds a client subscription on `res`.
pub open spec fn client_sub_any(t: Tables, res: int) -> bool {
    exists|k: int|
        0 <= k < t.resources@[res].session_ctxs@.len() && {
            let c = #[trigger] t.resources@[res].session_ctxs@[k];
            &&& (c.face as int) < t.faces@.len()
            &&& t.faces@[c.face as int].whatami == WhatAmI::Client
            &&& c.subs is Some
        }
}

fn has_client_sub(t: &Tables, res: usize) -> (r: bool)
    requires
        res < t.resources@.len(),
    ensures
        r == client_sub_any(*t, res as int),
{
    let ctxs = &t.resources[res].session_ctxs;
    let mut k: usize = 0;
    while k < ctxs.len()
        invariant
            k <= ctxs@.len(),
            ctxs@ == t.resources@[res as int].session_ctxs@,
            forall|j: int| 0 <= j < k ==> !({
                let c = #[trigger] ctxs@[j];
                &&& (c.face as int) < t.faces@.len()
                &&& t.faces@[c.face as int].whatami == WhatAmI::Client
                &&& c.subs is Some
            }),
        decreases ctxs@.len() - k,
    {
        let c = ctxs[k];
        if c.face < t.faces.len() && t.faces[c.face].whatami == WhatAmI::Client && c.subs.is_some() {
            assert(ctxs@[k as int] == c);
            return true;
        }
        k = k + 1;
    }
    false
}

/// Face `f` has a session context on `res`.
pub open spec fn has_ctx(t: Tables, res: int, f: int) -> bool {
    exists|k: int| 0 <= k < t.resources@[res].session_ctxs@.len() && #[trigger] t.resources@[res].session_ctxs@[k].face as int == f
}

pub fn ctx_of(t: &Tables, res: usize, f: usize) -> (r: bool)
    requires
        res < t.resources@.len(),
    ensures
        r == has_ctx(*t, res as int, f as int),
{
    let ctxs = &t.resources[res].session_ctxs;
    let mut k: usize = 0;
    while k < ctxs.len()
        invariant
            k <= ctxs@.len(),
            ctxs@ == t.resources@[res as int].session_ctxs@,
            forall|j: int| 0 <= j < k ==> (#[trigger] ctxs@[j]).face != f,
        decreases ctxs@.len() - k,
    {
        if ctxs[k].face == f {
            return true;
        }
        k = k + 1;
    }
    false
}

/// A link-state change of peer face `src` revisits the pair of resource
/// `x` and face `f`: `x` is a subscription `src` declared that no other
/// router and no client holds, and `f` is another peer face with a session
/// context on `x`.
pub open spec fn ls_visits(t: Tables, src: int, x: usize, f: int) -> bool {
    &&& (x as int) < t.resources@.len()
    &&& t.faces@[src].remote_subs@.contains(x)
    &&& !has_remote_router_subs(t, x as int)
    &&& !client_sub_any(t, x as int)
    &&& 0 <= f < t.faces@.len()
    &&& t.faces@[f].whatami == WhatAmI::Peer
    &&& t.faces@[f].zid != t.faces@[src].zid
    &&& has_ctx(t, x as int, f)
}

/// Face `f` stops hearing of `x`: the new links of the peer reach `f`
/// directly, and some peer subscribed to `x` is outside the links of `f`.
pub open spec fn ls_forget(t: Tables, links: Seq<ZenohId>, x: usize, f: int) -> bool {
    !brokering_to(links, t.faces@[f].zid) && sub_outside(t, x as int, links_of(t, t.faces@[f].zid))
}

/// Face `f` starts hearing of `x`: the new links of the peer miss `f`.
pub open spec fn ls_gain(t: Tables, links: Seq<ZenohId>, f: int) -> bool {
    brokering_to(links, t.faces@[f].zid)
}

/// Whether face `f` hears of `x` once the change is handled.
pub open spec fn ls_target(t: Tables, links: Seq<ZenohId>, x: usize, f: int) -> bool {
    let had = t.faces@[f].local_subs@.contains(x);
    (had && !ls_forget(t, links, x, f)) || (!had && ls_gain(t, links, f))
}

/// The undeclaration of `x` on face `f`.
pub open spec fn undecl_msg(f: int, x: usize) -> Outbound {
    Outbound { face: f as usize, node_id: 0, body: Declaration::UndeclareSubscriber { res: x } }
}

/// The messages a link-state change sends about `x` to faces `0..n`;
/// nothing when `x` was already revisited (`seen`).
pub open spec fn ls_face_msgs(t: Tables, links: Seq<ZenohId>, src: int, x: usize, n: int, seen: bool) -> Seq<Outbound>
    decreases n,
{
    if n <= 0 {
        Seq::empty()
    } else {
        let rest = ls_face_msgs(t, links, src, x, n - 1, seen);
        let f = n - 1;
        let had = t.faces@[f].local_subs@.contains(x);
        if !seen && ls_visits(t, src, x, f) {
            if had && ls_forget(t, links, x, f) {
                rest.push(undecl_msg(f, x))
            } else if !had && ls_gain(t, links, f) {
                rest.push(sub_msg(f, x as int, default_sub_info()))
            } else {
                rest
            }
        } else {
            rest
        }
    }
}

/// The messages a link-state change sends, resource by resource of `xs`
/// and face by face.
pub open spec fn ls_msgs(t: Tables, links: Seq<ZenohId>, src: int, xs: Seq<usize>) -> Seq<Outbound>
    decreases xs.len(),
{
    if xs.len() == 0 {
        Seq::empty()
    } else {
        ls_msgs(t, links, src, xs.drop_last()) + ls_face_msgs(t, links, src, xs.last(), t.faces@.len() as int,
            xs.drop_last().contains(xs.last()))
    }
}

proof fn lemma_prefix_step_ix(l: Seq<usize>, k: int)
    requires
        0 <= k < l.len(),
    ensures
        forall|x: usize| #[trigger] l.subrange(0, k + 1).contains(x) <==> l.subrange(0, k).contains(x) || x == l[k],
{
    let pre = l.subrange(0, k);
    let next = l.subrange(0, k + 1);
    assert forall|x: usize| next.contains(x) <==> pre.contains(x) || x == l[k] by {
        if next.contains(x) {
            let j = choose|j: int| 0 <= j < next.len() && next[j] == x;
            if j < k {
                assert(pre[j] == x);
            }
        }
        if pre.contains(x) {
            let j = choose|j: int| 0 <= j < pre.len() && pre[j] == x;
            assert(next[j] == x);
        }
        if x == l[k] {
            assert(next[k] == x);
        }
    }
}

/// When the links of peer `zid` change on a router, revisits each
/// subscription that peer declared and that no other router and no client
/// holds: a peer face that heard of it is told to forget it once `zid`
/// reaches it directly and some peer subscribed to it lies outside that
/// face's links; a peer face that did not hear of it is told of it once
/// `zid` no longer reaches it.
pub fn pubsub_linkstate_change(t: &mut Tables, zid: ZenohId, links: &Vec<ZenohId>, out: &mut Vec<Outbound>)
    ensures
        same_but_local_subs(*old(t), *final(t)),
        ({
            let s = find_face(old(t).faces@, zid);
            let active = s >= 0 && old(t).whatami == WhatAmI::Router && old(t).faces@[s].whatami == WhatAmI::Peer;
            &&& forall|f: int, x: usize|
                0 <= f < old(t).faces@.len() ==> (#[trigger] final(t).faces@[f].local_subs@.contains(x) <==> if active
                    && ls_visits(*old(t), s, x, f) {
                    ls_target(*old(t), links@, x, f)
                } else {
                    old(t).faces@[f].local_subs@.contains(x)
                })
            &&& final(out)@ == old(out)@ + if active {
                ls_msgs(*old(t), links@, s, old(t).faces@[s].remote_subs@)
            } else {
                Seq::empty()
            }
        }),
{
    let ghost t0 = *t;
    let ghost out0 = out@;
    let src = match get_face(t, zid) {
        Some(s) => s,
        None => {
            assert(out@ =~= out0 + Seq::<Outbound>::empty());
            return;
        },
    };
    if t.whatami != WhatAmI::Router || t.faces[src].whatami != WhatAmI::Peer {
        assert(out@ =~= out0 + Seq::<Outbound>::empty());
        return;
    }
    let subs = copy_indices(&t.faces[src].remote_subs);
    let n = t.faces.len();
    let mut k: usize = 0;
    while k < subs.len()
        invariant
            k <= subs@.len(),
            src < t.faces@.len(),
            n == t0.faces@.len(),
            subs@ == t0.faces@[src as int].remote_subs@,
            same_but_local_subs(t0, *t),
            forall|f: int, x: usize|
                0 <= f < t0.faces@.len() ==> (#[trigger] t.faces@[f].local_subs@.contains(x) <==> if ls_visits(t0, src as int, x, f)
                    && subs@.subrange(0, k as int).contains(x) {
                    ls_target(t0, links@, x, f)
                } else {
                    t0.faces@[f].local_subs@.contains(x)
                }),
            out@ == out0 + ls_msgs(t0, links@, src as int, subs@.subrange(0, k as int)),
        decreases subs@.len() - k,
    {
        let res = subs[k];
        proof { lemma_prefix_step_ix(subs@, k as int); }
        let ghost pre_k = subs@.subrange(0, k as int);
        let ghost seen = pre_k.contains(res);
        let ghost out_k = out@;
        assert(subs@.subrange(0, k + 1).drop_last() =~= pre_k);
        proof {
            assert forall|j: int| 0 <= j < t0.faces@.len() implies (#[trigger] t.faces@[j]).whatami == t0.faces@[j].whatami
                && t.faces@[j].zid == t0.faces@[j].zid by {
                assert(t.faces@[j] == (FaceState { local_subs: t.faces@[j].local_subs, ..t0.faces@[j] }));
            }
            if (res as int) < t0.resources@.len() {
                assert(client_sub_any(*t, res as int) == client_sub_any(t0, res as int));
            }
        }
        let eligible = res < t.resources.len() && !remote_router_subs(t, res) && !has_client_sub(t, res);
        assert(t0.faces@[src as int].remote_subs@.contains(res)) by {
            assert(subs@[k as int] == res);
        }
        let mut f: usize = 0;
        while f < n
            invariant
                f <= n,
                n == t0.faces@.len(),
                src < t.faces@.len(),
                seen == pre_k.contains(res),
                eligible == ((res as int) < t0.resources@.len() && !has_remote_router_subs(t0, res as int) && !client_sub_any(t0, res as int)),
                t0.faces@[src as int].remote_subs@.contains(res),
                same_but_local_subs(t0, *t),
                forall|g: int, x: usize|
                    0 <= g < t0.faces@.len() ==> (#[trigger] t.faces@[g].local_subs@.contains(x) <==> if ls_visits(t0, src as int, x, g)
                        && (pre_k.contains(x) || (x == res && g < f)) {
                        ls_target(t0, links@, x, g)
                    } else {
                        t0.faces@[g].local_subs@.contains(x)
                    }),
                out@ == out_k + ls_face_msgs(t0, links@, src as int, res, f as int, seen),
            decreases n - f,
        {
            let ghost before = *t;
            proof {
                assert forall|j: int| 0 <= j < t0.faces@.len() implies (#[trigger] before.faces@[j]).whatami == t0.faces@[j].whatami
                    && before.faces@[j].zid == t0.faces@[j].zid by {
                    assert(before.faces@[j] == (FaceState { local_subs: before.faces@[j].local_subs, ..t0.faces@[j] }));
                }
            }
            let visit = eligible && t.faces[f].whatami == WhatAmI::Peer && t.faces[src].zid != t.faces[f].zid && ctx_of(t, res, f);
            assert(visit == ls_visits(t0, src as int, res, f as int));
            let ghost h0 = t0.faces@[f as int].local_subs@.contains(res);
            let ghost hb = before.faces@[f as int].local_subs@.contains(res);
            let ghost tgt = ls_target(t0, links@, res, f as int);
            let ghost fg = ls_forget(t0, links@, res, f as int);
            let ghost gn = ls_gain(t0, links@, f as int);
            let ghost out_f = out@;
            assert(before.faces@[f as int].local_subs@.contains(res) <==> if ls_visits(t0, src as int, res, f as int)
                && (pre_k.contains(res) || (res == res && (f as int) < (f as int))) {
                ls_target(t0, links@, res, f as int)
            } else {
                t0.faces@[f as int].local_subs@.contains(res)
            });
            assert(hb == if visit && seen { tgt } else { h0 });
            assert(ls_face_msgs(t0, links@, src as int, res, f as int + 1, seen) == if !seen && visit {
                if h0 && fg {
                    ls_face_msgs(t0, links@, src as int, res, f as int, seen).push(undecl_msg(f as int, res))
                } else if !h0 && gn {
                    ls_face_msgs(t0, links@, src as int, res, f as int, seen).push(sub_msg(f as int, res as int, default_sub_info()))
                } else {
                    ls_face_msgs(t0, links@, src as int, res, f as int, seen)
                }
            } else {
                ls_face_msgs(t0, links@, src as int, res, f as int, seen)
            });
            if visit {
                let fz = t.faces[f].zid;
                let had = contains_index(&t.faces[f].local_subs, res);
                if had {
                    let forget = if !crate::tables::failover_brokering_to(links, fz) {
                        let l = peer_links(t, fz);
                        peer_sub_outside(t, res, &l)
                    } else {
                        false
                    };
                    proof {
                        assert(sub_outside(before, res as int, links_of(t0, fz)) == sub_outside(t0, res as int, links_of(t0, fz)));
                    }
                    assert(forget == ls_forget(t0, links@, res, f as int));
                    if forget {
                        let v = remove_all(&t.faces[f].local_subs, res);
                        t.set_local_subs(f, v);
                        out.push(undecl_msg_exec(f, res));
                    }
                } else if crate::tables::failover_brokering_to(links, fz) {
                    let mut v = copy_indices(&t.faces[f].local_subs);
                    let ghost pre = v@;
                    v.push(res);
                    assert forall|y: usize| v@.contains(y) <==> pre.contains(y) || y == res by {
                        if v@.contains(y) && y != res {
                            let i = choose|i: int| 0 <= i < v@.len() && v@[i] == y;
                            assert(pre[i] == y);
                        }
                        if pre.contains(y) {
                            let i = choose|i: int| 0 <= i < pre.len() && pre[i] == y;
                            assert(v@[i] == y);
                        }
                        if y == res {
                            assert(v@[pre.len() as int] == y);
                        }
                    }
                    t.set_local_subs(f, v);
                    out.push(Outbound { face: f, node_id: 0, body: Declaration::DeclareSubscriber { res, info: SubscriberInfo { reliability: crate::tables::Reliability::Reliable, mode: Mode::Push } } });
                }
            }
            proof {
                assert forall|g: int| 0 <= g < t0.faces@.len() implies #[trigger] t.faces@[g] == (FaceState {
                    local_subs: t.faces@[g].local_subs,
                    ..t0.faces@[g]
                }) by {
                    assert(before.faces@[g] == (FaceState { local_subs: before.faces@[g].local_subs, ..t0.faces@[g] }));
                }
                if visit {
                    assert(t.faces@[f as int].local_subs@.contains(res) == tgt);
                    if seen {
                        assert(out@ == out_f);
                    }
                } else {
                    assert(t.faces@[f as int].local_subs@.contains(res) == hb);
                    assert(out@ == out_f);
                }
                assert forall|g: int, x: usize|
                    0 <= g < t0.faces@.len() && (g != f || x != res)
                        implies (#[trigger] t.faces@[g].local_subs@.contains(x) <==> before.faces@[g].local_subs@.contains(x)) by {
                    if g != f as int {
                        assert(t.faces@[g] == before.faces@[g]);
                    }
                }
            }
            f = f + 1;
        }
        proof {
            assert(subs@.subrange(0, k + 1).last() == res);
        }
        k = k + 1;
    }
    assert(subs@.subrange(0, k as int) =~= subs@);
}

fn undecl_msg_exec(f: usize, x: usize) -> (r: Outbound)
    ensures
        r == undecl_msg(f as int, x),
{
    Outbound { face: f, node_id: 0, body: Declaration::UndeclareSubscriber { res: x } }
}

} // verus!
