//! Queryable declarations: like subscriptions, but what is announced to a
//! face is the aggregate of the queryables this node knows of, and it is
//! re-announced whenever that aggregate changes.

use crate::pubsub::{contains_index, copy_indices};
use crate::pubsub::{net_of, sourced_msgs};
use crate::tables::{
    brokering, Network, Declaration, FaceState, Outbound, QueryableInfo, Resource, SessionContext, Tables,
    WhatAmI, ZenohId,
};
use vstd::prelude::*;

verus! {

/// Merges two queryable announcements: complete if either is, at the
/// smaller distance.
pub open spec fn merged(a: QueryableInfo, b: QueryableInfo) -> QueryableInfo {
    QueryableInfo {
        complete: if a.complete != 0 || b.complete != 0 { 1 } else { 0 },
        distance: if a.distance <= b.distance { a.distance } else { b.distance },
    }
}

/// Merges two queryable announcements.
pub fn merge_qabl_infos(this: QueryableInfo, info: &QueryableInfo) -> (r: QueryableInfo)
    ensures
        r == merged(this, *info),
{
    QueryableInfo {
        complete: if this.complete != 0 || info.complete != 0 { 1 } else { 0 },
        distance: if this.distance <= info.distance { this.distance } else { info.distance },
    }
}

/// Adds `info` to an optional aggregate.
pub open spec fn add_info(acc: Option<QueryableInfo>, info: QueryableInfo) -> Option<QueryableInfo> {
    match acc {
        Some(a) => Some(merged(a, info)),
        None => Some(info),
    }
}

/// Folds the announcements of `list` whose source is not `me` into `acc`.
pub open spec fn fold_sourced(acc: Option<QueryableInfo>, list: Seq<(ZenohId, QueryableInfo)>, me: ZenohId) -> Option<QueryableInfo>
    decreases list.len(),
{
    if list.len() == 0 {
        acc
    } else {
        let rest = fold_sourced(acc, list.drop_last(), me);
        if list.last().0 != me {
            add_info(rest, list.last().1)
        } else {
            rest
        }
    }
}

/// A session context with a queryable on it is visible to face `dst`.
pub open spec fn visible_to(t: Tables, ctx: SessionContext, dst: int) -> bool {
    (ctx.face as int) < t.faces@.len() && {
        let src = t.faces@[ctx.face as int];
        ||| ctx.face as int != dst
        ||| src.whatami != WhatAmI::Peer
        ||| t.faces@[dst].whatami != WhatAmI::Peer
        ||| brokering(t.peers_net, src.zid, t.faces@[dst].zid)
    }
}

/// Folds the client queryables visible to `dst` into `acc`.
pub open spec fn fold_sessions(acc: Option<QueryableInfo>, t: Tables, ctxs: Seq<SessionContext>, dst: int) -> Option<QueryableInfo>
    decreases ctxs.len(),
{
    if ctxs.len() == 0 {
        acc
    } else {
        let rest = fold_sessions(acc, t, ctxs.drop_last(), dst);
        let c = ctxs.last();
        if visible_to(t, c, dst) && c.qabl is Some {
            add_info(rest, c.qabl->Some_0)
        } else {
            rest
        }
    }
}

/// What this node announces to face `dst` for the queryables on `res`:
/// those of other routers (on a router), of other peers (in a full peer
/// mesh), and the client ones visible to `dst`, merged; `{0, 0}` when
/// there are none.
pub open spec fn local_info(t: Tables, res: int, dst: int) -> QueryableInfo {
    let r = t.resources@[res];
    let a = if t.whatami == WhatAmI::Router { fold_sourced(None, r.router_qabls@, t.zid) } else { None };
    let b = if t.full_peer_net { fold_sourced(a, r.peer_qabls@, t.zid) } else { a };
    match fold_sessions(b, t, r.session_ctxs@, dst) {
        Some(i) => i,
        None => QueryableInfo { complete: 0, distance: 0 },
    }
}

fn add_to(acc: Option<QueryableInfo>, info: &QueryableInfo) -> (r: Option<QueryableInfo>)
    ensures
        r == add_info(acc, *info),
{
    match acc {
        Some(a) => Some(merge_qabl_infos(a, info)),
        None => Some(*info),
    }
}

fn fold_sourced_exec(acc: Option<QueryableInfo>, list: &Vec<(ZenohId, QueryableInfo)>, me: ZenohId) -> (r: Option<QueryableInfo>)
    ensures
        r == fold_sourced(acc, list@, me),
{
    let mut a = acc;
    let mut k: usize = 0;
    while k < list.len()
        invariant
            k <= list@.len(),
            a == fold_sourced(acc, list@.subrange(0, k as int), me),
        decreases list@.len() - k,
    {
        assert(list@.subrange(0, k + 1).drop_last() =~= list@.subrange(0, k as int));
        let (z, info) = list[k];
        if z != me {
            a = add_to(a, &info);
        }
        k = k + 1;
    }
    assert(list@.subrange(0, k as int) =~= list@);
    a
}

/// The aggregate announcement for `res` that face `dst` should hear.
pub fn local_qabl_info(t: &Tables, res: usize, dst: usize) -> (r: QueryableInfo)
    requires
        res < t.resources@.len(),
        dst < t.faces@.len(),
    ensures
        r == local_info(*t, res as int, dst as int),
{
    let r = &t.resources[res];
    let a = if t.whatami == WhatAmI::Router { fold_sourced_exec(None, &r.router_qabls, t.zid) } else { None };
    let b = if t.full_peer_net { fold_sourced_exec(a, &r.peer_qabls, t.zid) } else { a };
    let ctxs = &r.session_ctxs;
    let mut acc = b;
    let mut k: usize = 0;
    while k < ctxs.len()
        invariant
            k <= ctxs@.len(),
            dst < t.faces@.len(),
            ctxs@ == t.resources@[res as int].session_ctxs@,
            acc == fold_sessions(b, *t, ctxs@.subrange(0, k as int), dst as int),
        decreases ctxs@.len() - k,
    {
        assert(ctxs@.subrange(0, k + 1).drop_last() =~= ctxs@.subrange(0, k as int));
        let c = ctxs[k];
        let visible = c.face < t.faces.len() && {
            let src_role = t.faces[c.face].whatami;
            c.face != dst || src_role != WhatAmI::Peer || t.faces[dst].whatami != WhatAmI::Peer
                || t.failover_brokering(t.faces[c.face].zid, t.faces[dst].zid)
        };
        if visible {
            if let Some(info) = c.qabl {
                acc = add_to(acc, &info);
            }
        }
        k = k + 1;
    }
    assert(ctxs@.subrange(0, k as int) =~= ctxs@);
    match acc {
        Some(i) => i,
        None => QueryableInfo { complete: 0, distance: 0 },
    }
}

/// What face `f` was last told about `res`, if anything.
pub open spec fn told(v: Seq<(usize, QueryableInfo)>, res: usize) -> Option<QueryableInfo>
    decreases v.len(),
{
    if v.len() == 0 {
        None
    } else if told(v.drop_last(), res) is Some {
        told(v.drop_last(), res)
    } else if v.last().0 == res {
        Some(v.last().1)
    } else {
        None
    }
}

fn told_exec(v: &Vec<(usize, QueryableInfo)>, res: usize) -> (r: Option<QueryableInfo>)
    ensures
        r == told(v@, res),
{
    let mut k: usize = 0;
    while k < v.len()
        invariant
            k <= v@.len(),
            told(v@.subrange(0, k as int), res) is None,
        decreases v@.len() - k,
    {
        assert(v@.subrange(0, k + 1).drop_last() =~= v@.subrange(0, k as int));
        if v[k].0 == res {
            proof { lemma_told_prefix(v@, res, k as int + 1); }
            return Some(v[k].1);
        }
        k = k + 1;
    }
    assert(v@.subrange(0, k as int) =~= v@);
    None
}

proof fn lemma_told_prefix(v: Seq<(usize, QueryableInfo)>, res: usize, n: int)
    requires
        0 < n <= v.len(),
        told(v.subrange(0, n), res) is Some,
    ensures
        told(v, res) == told(v.subrange(0, n), res),
    decreases v.len() - n,
{
    if n < v.len() {
        assert(v.subrange(0, n + 1).drop_last() =~= v.subrange(0, n));
        lemma_told_prefix(v, res, n + 1);
    } else {
        assert(v.subrange(0, n) =~= v);
    }
}

/// `v` with the entry of `res` set to `info` (added when missing).
fn tell(v: &Vec<(usize, QueryableInfo)>, res: usize, info: QueryableInfo) -> (r: Vec<(usize, QueryableInfo)>)
    ensures
        told(r@, res) == Some(info),
        forall|x: usize| x != res ==> told(r@, x) == told(v@, x),
{
    let mut r: Vec<(usize, QueryableInfo)> = Vec::new();
    let mut k: usize = 0;
    while k < v.len()
        invariant
            k <= v@.len(),
            told(r@, res) is None,
            forall|x: usize| x != res ==> told(r@, x) == told(v@.subrange(0, k as int), x),
        decreases v@.len() - k,
    {
        let ghost before = r@;
        assert(v@.subrange(0, k + 1).drop_last() =~= v@.subrange(0, k as int));
        if v[k].0 != res {
            r.push(v[k]);
            assert(r@.drop_last() =~= before);
        }
        assert forall|x: usize| x != res implies told(r@, x) == told(v@.subrange(0, k + 1), x) by {
            assert(told(before, x) == told(v@.subrange(0, k as int), x));
        }
        k = k + 1;
    }
    assert(v@.subrange(0, k as int) =~= v@);
    let ghost before = r@;
    r.push((res, info));
    assert(r@.drop_last() =~= before);
    assert forall|x: usize| x != res implies told(r@, x) == told(v@, x) by {
        assert(told(before, x) == told(v@, x));
    }
    r
}

impl Tables {
    pub fn set_local_qabls(&mut self, f: usize, v: Vec<(usize, QueryableInfo)>)
        requires
            f < old(self).faces@.len(),
        ensures
            *final(self) == (Tables { faces: final(self).faces, ..*old(self) }),
            final(self).faces@ == old(self).faces@.update(
                f as int,
                FaceState { local_qabls: v, ..old(self).faces@[f as int] },
            ),
    {
        let mut face = self.faces.remove(f);
        face.local_qabls = v;
        self.faces.insert(f, face);
        assert(self.faces@ =~= old(self).faces@.update(
            f as int,
            FaceState { local_qabls: v, ..old(self).faces@[f as int] },
        ));
    }
}

/// The role rules for queryables; `src` is the declaring face, if any.
pub open spec fn qabl_allowed(t: Tables, src: Option<usize>, dst: int) -> bool {
    let d = t.faces@[dst].whatami;
    match t.whatami {
        WhatAmI::Router => if t.full_peer_net {
            d == WhatAmI::Client
        } else {
            d != WhatAmI::Router && (src is None || t.faces@[src->Some_0 as int].whatami != WhatAmI::Peer
                || d != WhatAmI::Peer || brokering(t.peers_net, t.faces@[src->Some_0 as int].zid, t.faces@[dst].zid))
        },
        WhatAmI::Peer => if t.full_peer_net {
            d == WhatAmI::Client
        } else {
            src is None || t.faces@[src->Some_0 as int].whatami == WhatAmI::Client || d == WhatAmI::Client
        },
        WhatAmI::Client => src is None || t.faces@[src->Some_0 as int].whatami == WhatAmI::Client || d == WhatAmI::Client,
    }
}

/// Face `dst` is told of the queryables on `res`: it is not the declaring
/// face, the aggregate differs from what it was last told, and the role
/// rules allow it.
pub open spec fn qabl_to(t: Tables, res: int, src: Option<usize>, dst: int) -> bool {
    &&& (src is None || src->Some_0 as int != dst)
    &&& told(t.faces@[dst].local_qabls@, res as usize) != Some(local_info(t, res, dst))
    &&& qabl_allowed(t, src, dst)
}

/// The declarations simple propagation of queryables sends to faces `0..n`.
pub open spec fn qabl_msgs(t: Tables, res: int, src: Option<usize>, n: int) -> Seq<Outbound>
    decreases n,
{
    if n <= 0 {
        Seq::empty()
    } else if qabl_to(t, res, src, n - 1) {
        qabl_msgs(t, res, src, n - 1).push(
            Outbound {
                face: (n - 1) as usize,
                node_id: 0,
                body: Declaration::DeclareQueryable { res: res as usize, info: local_info(t, res, n - 1) },
            },
        )
    } else {
        qabl_msgs(t, res, src, n - 1)
    }
}

/// The tables differ only in the faces' `local_qabls`.
pub open spec fn same_but_local_qabls(a: Tables, b: Tables) -> bool {
    &&& b == (Tables { faces: b.faces, ..a })
    &&& b.faces@.len() == a.faces@.len()
    &&& forall|f: int|
        0 <= f < a.faces@.len() ==> #[trigger] b.faces@[f] == (FaceState {
            local_qabls: b.faces@[f].local_qabls,
            ..a.faces@[f]
        })
}

proof fn lemma_local_info_frame(a: Tables, b: Tables, res: int, dst: int)
    requires
        same_but_local_qabls(a, b),
        0 <= dst < a.faces@.len(),
        0 <= res < a.resources@.len(),
    ensures
        local_info(a, res, dst) == local_info(b, res, dst),
        qabl_allowed(a, None, dst) == qabl_allowed(b, None, dst),
{
    assert forall|f: int| 0 <= f < a.faces@.len() implies #[trigger] b.faces@[f].whatami == a.faces@[f].whatami
        && b.faces@[f].zid == a.faces@[f].zid by {
        assert(b.faces@[f] == (FaceState { local_qabls: b.faces@[f].local_qabls, ..a.faces@[f] }));
    }
    lemma_fold_sessions_frame(a, b, a.resources@[res].session_ctxs@, dst);
}

proof fn lemma_fold_sessions_frame(a: Tables, b: Tables, ctxs: Seq<SessionContext>, dst: int)
    requires
        same_but_local_qabls(a, b),
        0 <= dst < a.faces@.len(),
        forall|f: int| 0 <= f < a.faces@.len() ==> #[trigger] b.faces@[f].whatami == a.faces@[f].whatami
            && b.faces@[f].zid == a.faces@[f].zid,
    ensures
        forall|acc: Option<QueryableInfo>| fold_sessions(acc, a, ctxs, dst) == fold_sessions(acc, b, ctxs, dst),
    decreases ctxs.len(),
{
    if ctxs.len() > 0 {
        lemma_fold_sessions_frame(a, b, ctxs.drop_last(), dst);
        let c = ctxs.last();
        if (c.face as int) < a.faces@.len() {
            assert(b.faces@[c.face as int].whatami == a.faces@[c.face as int].whatami);
        }
        assert(b.faces@[dst].whatami == a.faces@[dst].whatami);
        assert(visible_to(a, c, dst) == visible_to(b, c, dst));
        assert forall|acc: Option<QueryableInfo>| fold_sessions(acc, a, ctxs, dst) == fold_sessions(acc, b, ctxs, dst) by {
            assert(fold_sessions(acc, a, ctxs.drop_last(), dst) == fold_sessions(acc, b, ctxs.drop_last(), dst));
        }
    }
}

/// Tells every face the role rules allow, but the declaring face, of the
/// aggregate of the queryables on `res`, where it differs from what the
/// face was last told.
pub fn propagate_simple_queryable(t: &mut Tables, res: usize, src: Option<usize>, out: &mut Vec<Outbound>)
    requires
        res < old(t).resources@.len(),
        src matches Some(s) ==> s < old(t).faces@.len(),
    ensures
        same_but_local_qabls(*old(t), *final(t)),
        forall|f: int| 0 <= f < old(t).faces@.len() ==> #[trigger] told(final(t).faces@[f].local_qabls@, res) == if qabl_to(*old(t), res as int, src, f) {
            Some(local_info(*old(t), res as int, f))
        } else {
            told(old(t).faces@[f].local_qabls@, res)
        },
        final(out)@ == old(out)@ + qabl_msgs(*old(t), res as int, src, old(t).faces@.len() as int),
        forall|f: int, x: usize| 0 <= f < old(t).faces@.len() && x != res ==> #[trigger] told(final(t).faces@[f].local_qabls@, x)
            == told(old(t).faces@[f].local_qabls@, x),
{
    let ghost t0 = *t;
    let mut d: usize = 0;
    while d < t.faces.len()
        invariant
            d <= t.faces@.len(),
            t.faces@.len() == t0.faces@.len(),
            res < t0.resources@.len(),
            src matches Some(s) ==> s < t0.faces@.len(),
            same_but_local_qabls(t0, *t),
            forall|f: int| 0 <= f < d ==> #[trigger] told(t.faces@[f].local_qabls@, res) == if qabl_to(t0, res as int, src, f) {
                Some(local_info(t0, res as int, f))
            } else {
                told(t0.faces@[f].local_qabls@, res)
            },
            forall|f: int| d <= f < t.faces@.len() ==> #[trigger] t.faces@[f] == t0.faces@[f],
            out@ == old(out)@ + qabl_msgs(t0, res as int, src, d as int),
            forall|g: int, x: usize| 0 <= g < t0.faces@.len() && x != res ==> #[trigger] told(t.faces@[g].local_qabls@, x)
                == told(t0.faces@[g].local_qabls@, x),
        decreases t.faces@.len() - d,
    {
        let ghost before = *t;
        proof {
            lemma_local_info_frame(t0, before, res as int, d as int);
            assert forall|f: int| 0 <= f < t0.faces@.len() implies #[trigger] before.faces@[f].whatami == t0.faces@[f].whatami
                && before.faces@[f].zid == t0.faces@[f].zid by {
                assert(before.faces@[f] == (FaceState { local_qabls: before.faces@[f].local_qabls, ..t0.faces@[f] }));
            }
        }
        let info = local_qabl_info(t, res, d);
        let current = told_exec(&t.faces[d].local_qabls, res);
        let not_src = match src {
            Some(s) => s != d,
            None => true,
        };
        let changed = match current {
            Some(c) => c != info,
            None => true,
        };
        let d_role = t.faces[d].whatami;
        let allowed = match t.whatami {
            WhatAmI::Router => {
                if t.full_peer_net {
                    d_role == WhatAmI::Client
                } else {
                    d_role != WhatAmI::Router && match src {
                        None => true,
                        Some(s) => t.faces[s].whatami != WhatAmI::Peer || d_role != WhatAmI::Peer
                            || t.failover_brokering(t.faces[s].zid, t.faces[d].zid),
                    }
                }
            },
            WhatAmI::Peer => {
                if t.full_peer_net {
                    d_role == WhatAmI::Client
                } else {
                    match src {
                        None => true,
                        Some(s) => t.faces[s].whatami == WhatAmI::Client || d_role == WhatAmI::Client,
                    }
                }
            },
            WhatAmI::Client => match src {
                None => true,
                Some(s) => t.faces[s].whatami == WhatAmI::Client || d_role == WhatAmI::Client,
            },
        };
        assert(allowed == qabl_allowed(t0, src, d as int));
        assert(changed == (told(t0.faces@[d as int].local_qabls@, res) != Some(local_info(t0, res as int, d as int))));
        if not_src && changed && allowed {
            let v = tell(&t.faces[d].local_qabls, res, info);
            t.set_local_qabls(d, v);
            out.push(Outbound { face: d, node_id: 0, body: Declaration::DeclareQueryable { res, info } });
        }
        assert forall|f: int| 0 <= f < t0.faces@.len() implies #[trigger] t.faces@[f] == (FaceState {
            local_qabls: t.faces@[f].local_qabls,
            ..t0.faces@[f]
        }) by {
            assert(before.faces@[f] == (FaceState { local_qabls: before.faces@[f].local_qabls, ..t0.faces@[f] }));
        }
        d = d + 1;
    }
}

} // verus!

verus! {

/// Every client face but `src` has been told the current aggregate of the
/// queryables on `res`.
pub open spec fn clients_told(t: Tables, res: int, src: int) -> bool {
    forall|d: int|
        0 <= d < t.faces@.len() && d != src && #[trigger] t.faces@[d].whatami == WhatAmI::Client
            ==> told(t.faces@[d].local_qabls@, res as usize) == Some(local_info(t, res, d))
}

proof fn lemma_clients_told(t0: Tables, t1: Tables, res: int, src: usize)
    requires
        0 <= res < t0.resources@.len(),
        res <= usize::MAX,
        src < t0.faces@.len(),
        same_but_local_qabls(t0, t1),
        forall|f: int| 0 <= f < t0.faces@.len() ==> #[trigger] told(t1.faces@[f].local_qabls@, res as usize) == if qabl_to(t0, res, Some(src), f) {
            Some(local_info(t0, res, f))
        } else {
            told(t0.faces@[f].local_qabls@, res as usize)
        },
    ensures
        clients_told(t1, res, src as int),
{
    assert forall|d: int|
        0 <= d < t1.faces@.len() && d != src && #[trigger] t1.faces@[d].whatami == WhatAmI::Client
            implies told(t1.faces@[d].local_qabls@, res as usize) == Some(local_info(t1, res, d)) by {
        assert(t1.faces@[d] == (FaceState { local_qabls: t1.faces@[d].local_qabls, ..t0.faces@[d] }));
        lemma_local_info_frame(t0, t1, res, d);
        assert(t0.faces@[d].whatami == WhatAmI::Client);
        assert(qabl_allowed(t0, Some(src), d));
        assert(told(t1.faces@[d].local_qabls@, res as usize) == if qabl_to(t0, res, Some(src), d) {
            Some(local_info(t0, res, d))
        } else {
            told(t0.faces@[d].local_qabls@, res as usize)
        });
    }
}

/// The announcement of source `z` in `list`, if any (the first one).
pub open spec fn info_of(list: Seq<(ZenohId, QueryableInfo)>, z: ZenohId) -> Option<QueryableInfo>
    decreases list.len(),
{
    if list.len() == 0 {
        None
    } else if info_of(list.drop_last(), z) is Some {
        info_of(list.drop_last(), z)
    } else if list.last().0 == z {
        Some(list.last().1)
    } else {
        None
    }
}

fn info_of_exec(v: &Vec<(ZenohId, QueryableInfo)>, z: ZenohId) -> (r: Option<QueryableInfo>)
    ensures
        r == info_of(v@, z),
{
    let mut k: usize = 0;
    while k < v.len()
        invariant
            k <= v@.len(),
            info_of(v@.subrange(0, k as int), z) is None,
        decreases v@.len() - k,
    {
        assert(v@.subrange(0, k + 1).drop_last() =~= v@.subrange(0, k as int));
        if v[k].0 == z {
            proof { lemma_info_of_prefix(v@, z, k as int + 1); }
            return Some(v[k].1);
        }
        k = k + 1;
    }
    assert(v@.subrange(0, k as int) =~= v@);
    None
}

proof fn lemma_info_of_prefix(v: Seq<(ZenohId, QueryableInfo)>, z: ZenohId, n: int)
    requires
        0 < n <= v.len(),
        info_of(v.subrange(0, n), z) is Some,
    ensures
        info_of(v, z) == info_of(v.subrange(0, n), z),
    decreases v.len() - n,
{
    if n < v.len() {
        assert(v.subrange(0, n + 1).drop_last() =~= v.subrange(0, n));
        lemma_info_of_prefix(v, z, n + 1);
    } else {
        assert(v.subrange(0, n) =~= v);
    }
}

/// `v` with the announcement of `z` set to `info`.
fn set_info(v: &Vec<(ZenohId, QueryableInfo)>, z: ZenohId, info: QueryableInfo) -> (r: Vec<(ZenohId, QueryableInfo)>)
    ensures
        info_of(r@, z) == Some(info),
        forall|x: ZenohId| x != z ==> info_of(r@, x) == info_of(v@, x),
{
    let mut r: Vec<(ZenohId, QueryableInfo)> = Vec::new();
    let mut k: usize = 0;
    while k < v.len()
        invariant
            k <= v@.len(),
            info_of(r@, z) is None,
            forall|x: ZenohId| x != z ==> info_of(r@, x) == info_of(v@.subrange(0, k as int), x),
        decreases v@.len() - k,
    {
        let ghost before = r@;
        assert(v@.subrange(0, k + 1).drop_last() =~= v@.subrange(0, k as int));
        if v[k].0 != z {
            r.push(v[k]);
            assert(r@.drop_last() =~= before);
        }
        assert forall|x: ZenohId| x != z implies info_of(r@, x) == info_of(v@.subrange(0, k + 1), x) by {
            assert(info_of(before, x) == info_of(v@.subrange(0, k as int), x));
        }
        k = k + 1;
    }
    assert(v@.subrange(0, k as int) =~= v@);
    let ghost before = r@;
    r.push((z, info));
    assert(r@.drop_last() =~= before);
    assert forall|x: ZenohId| x != z implies info_of(r@, x) == info_of(v@, x) by {
        assert(info_of(before, x) == info_of(v@, x));
    }
    r
}

/// Some router other than this node has a queryable on `res`.
pub open spec fn has_remote_router_qabls(t: Tables, res: int) -> bool {
    exists|k: int| 0 <= k < t.resources@[res].router_qabls@.len() && #[trigger] t.resources@[res].router_qabls@[k].0 != t.zid
}

/// Some peer other than this node has a queryable on `res`.
pub open spec fn has_remote_peer_qabls(t: Tables, res: int) -> bool {
    exists|k: int| 0 <= k < t.resources@[res].peer_qabls@.len() && #[trigger] t.resources@[res].peer_qabls@[k].0 != t.zid
}

fn any_other_source(v: &Vec<(ZenohId, QueryableInfo)>, z: ZenohId) -> (r: bool)
    ensures
        r == exists|k: int| 0 <= k < v@.len() && #[trigger] v@[k].0 != z,
{
    let mut k: usize = 0;
    while k < v.len()
        invariant
            k <= v@.len(),
            forall|j: int| 0 <= j < k ==> v@[j].0 == z,
        decreases v@.len() - k,
    {
        if v[k].0 != z {
            assert(v@[k as int].0 != z);
            return true;
        }
        k = k + 1;
    }
    false
}

/// Whether a router other than this node has a queryable on `res`.
pub fn remote_router_qabls(t: &Tables, res: usize) -> (r: bool)
    requires
        res < t.resources@.len(),
    ensures
        r == has_remote_router_qabls(*t, res as int),
{
    any_other_source(&t.resources[res].router_qabls, t.zid)
}

/// Whether a peer other than this node has a queryable on `res`.
pub fn remote_peer_qabls(t: &Tables, res: usize) -> (r: bool)
    requires
        res < t.resources@.len(),
    ensures
        r == has_remote_peer_qabls(*t, res as int),
{
    any_other_source(&t.resources[res].peer_qabls, t.zid)
}

/// The faces with a client queryable on `res`, in session order.
pub open spec fn client_qabl_faces(ctxs: Seq<SessionContext>) -> Seq<usize>
    decreases ctxs.len(),
{
    if ctxs.len() == 0 {
        Seq::empty()
    } else if ctxs.last().qabl is Some {
        client_qabl_faces(ctxs.drop_last()).push(ctxs.last().face)
    } else {
        client_qabl_faces(ctxs.drop_last())
    }
}

/// The faces with a client queryable on `res`.
pub fn client_qabls(t: &Tables, res: usize) -> (r: Vec<usize>)
    requires
        res < t.resources@.len(),
    ensures
        r@ == client_qabl_faces(t.resources@[res as int].session_ctxs@),
{
    let ctxs = &t.resources[res].session_ctxs;
    let mut r: Vec<usize> = Vec::new();
    let mut k: usize = 0;
    while k < ctxs.len()
        invariant
            k <= ctxs@.len(),
            r@ == client_qabl_faces(ctxs@.subrange(0, k as int)),
        decreases ctxs@.len() - k,
    {
        assert(ctxs@.subrange(0, k + 1).drop_last() =~= ctxs@.subrange(0, k as int));
        if ctxs[k].qabl.is_some() {
            r.push(ctxs[k].face);
        }
        k = k + 1;
    }
    assert(ctxs@.subrange(0, k as int) =~= ctxs@);
    r
}

} // verus!

verus! {

/// Folds every client queryable of `ctxs` into `acc`.
pub open spec fn fold_all_sessions(acc: Option<QueryableInfo>, ctxs: Seq<SessionContext>) -> Option<QueryableInfo>
    decreases ctxs.len(),
{
    if ctxs.len() == 0 {
        acc
    } else {
        let rest = fold_all_sessions(acc, ctxs.drop_last());
        match ctxs.last().qabl {
            Some(i) => add_info(rest, i),
            None => rest,
        }
    }
}

fn fold_all_sessions_exec(acc: Option<QueryableInfo>, ctxs: &Vec<SessionContext>) -> (r: QueryableInfo)
    ensures
        r == (match fold_all_sessions(acc, ctxs@) {
            Some(i) => i,
            None => QueryableInfo { complete: 0, distance: 0 },
        }),
{
    let mut a = acc;
    let mut k: usize = 0;
    while k < ctxs.len()
        invariant
            k <= ctxs@.len(),
            a == fold_all_sessions(acc, ctxs@.subrange(0, k as int)),
        decreases ctxs@.len() - k,
    {
        assert(ctxs@.subrange(0, k + 1).drop_last() =~= ctxs@.subrange(0, k as int));
        if let Some(i) = ctxs[k].qabl {
            a = add_to(a, &i);
        }
        k = k + 1;
    }
    assert(ctxs@.subrange(0, k as int) =~= ctxs@);
    match a {
        Some(i) => i,
        None => QueryableInfo { complete: 0, distance: 0 },
    }
}

/// What this node announces in the router scope for `res`: the queryables
/// of other peers of a full mesh and all client queryables, merged.
pub open spec fn router_scope_info(t: Tables, res: int) -> QueryableInfo {
    let r = t.resources@[res];
    let a = if t.full_peer_net { fold_sourced(None, r.peer_qabls@, t.zid) } else { None };
    match fold_all_sessions(a, r.session_ctxs@) {
        Some(i) => i,
        None => QueryableInfo { complete: 0, distance: 0 },
    }
}

/// What this node announces in the peer scope for `res`: on a router the
/// queryables of other routers, and all client queryables, merged.
pub open spec fn peer_scope_info(t: Tables, res: int) -> QueryableInfo {
    let r = t.resources@[res];
    let a = if t.whatami == WhatAmI::Router { fold_sourced(None, r.router_qabls@, t.zid) } else { None };
    match fold_all_sessions(a, r.session_ctxs@) {
        Some(i) => i,
        None => QueryableInfo { complete: 0, distance: 0 },
    }
}

/// The aggregate this node announces for `res` in the router scope.
pub fn local_router_qabl_info(t: &Tables, res: usize) -> (r: QueryableInfo)
    requires
        res < t.resources@.len(),
    ensures
        r == router_scope_info(*t, res as int),
{
    let a = if t.full_peer_net { fold_sourced_exec(None, &t.resources[res].peer_qabls, t.zid) } else { None };
    fold_all_sessions_exec(a, &t.resources[res].session_ctxs)
}

/// The aggregate this node announces for `res` in the peer scope.
pub fn local_peer_qabl_info(t: &Tables, res: usize) -> (r: QueryableInfo)
    requires
        res < t.resources@.len(),
    ensures
        r == peer_scope_info(*t, res as int),
{
    let a = if t.whatami == WhatAmI::Router { fold_sourced_exec(None, &t.resources[res].router_qabls, t.zid) } else { None };
    fold_all_sessions_exec(a, &t.resources[res].session_ctxs)
}

impl Tables {
    pub fn set_router_qabls(&mut self, res: usize, v: Vec<(ZenohId, QueryableInfo)>)
        requires
            res < old(self).resources@.len(),
        ensures
            *final(self) == (Tables { resources: final(self).resources, ..*old(self) }),
            final(self).resources@ == old(self).resources@.update(
                res as int,
                Resource { router_qabls: v, ..old(self).resources@[res as int] },
            ),
    {
        let mut r = self.resources.remove(res);
        r.router_qabls = v;
        self.resources.insert(res, r);
        assert(self.resources@ =~= old(self).resources@.update(
            res as int,
            Resource { router_qabls: v, ..old(self).resources@[res as int] },
        ));
    }

    pub fn set_peer_qabls(&mut self, res: usize, v: Vec<(ZenohId, QueryableInfo)>)
        requires
            res < old(self).resources@.len(),
        ensures
            *final(self) == (Tables { resources: final(self).resources, ..*old(self) }),
            final(self).resources@ == old(self).resources@.update(
                res as int,
                Resource { peer_qabls: v, ..old(self).resources@[res as int] },
            ),
    {
        let mut r = self.resources.remove(res);
        r.peer_qabls = v;
        self.resources.insert(res, r);
        assert(self.resources@ =~= old(self).resources@.update(
            res as int,
            Resource { peer_qabls: v, ..old(self).resources@[res as int] },
        ));
    }

    pub fn set_remote_qabls(&mut self, f: usize, v: Vec<usize>)
        requires
            f < old(self).faces@.len(),
        ensures
            *final(self) == (Tables { faces: final(self).faces, ..*old(self) }),
            final(self).faces@ == old(self).faces@.update(
                f as int,
                FaceState { remote_qabls: v, ..old(self).faces@[f as int] },
            ),
    {
        let mut face = self.faces.remove(f);
        face.remote_qabls = v;
        self.faces.insert(f, face);
        assert(self.faces@ =~= old(self).faces@.update(
            f as int,
            FaceState { remote_qabls: v, ..old(self).faces@[f as int] },
        ));
    }
}

/// Face `f` holds a client queryable on `res`.
pub open spec fn client_qabl(t: Tables, res: int, f: usize) -> bool {
    exists|k: int|
        0 <= k < t.resources@[res].session_ctxs@.len() && #[trigger] t.resources@[res].session_ctxs@[k].face == f
            && t.resources@[res].session_ctxs@[k].qabl is Some
}


/// The declaration of the aggregate `info` of queryables on `res` sent on
/// face `d`.
pub open spec fn qmsg(d: int, res: int, info: QueryableInfo) -> Outbound {
    Outbound { face: d as usize, node_id: 0, body: Declaration::DeclareQueryable { res: res as usize, info } }
}

/// Every client face of `t0` but `src` that was not already told the
/// aggregate of `res` in `t1` is sent that aggregate in `extra`.
pub open spec fn clients_qsent(t0: Tables, t1: Tables, extra: Seq<Outbound>, res: int, src: int) -> bool {
    forall|d: int|
        0 <= d < t0.faces@.len() && d != src && #[trigger] t0.faces@[d].whatami == WhatAmI::Client
            && told(t0.faces@[d].local_qabls@, res as usize) != Some(local_info(t1, res, d))
            ==> extra.contains(qmsg(d, res, local_info(t1, res, d)))
}

proof fn lemma_qabl_msgs_contain(t: Tables, res: int, src: Option<usize>, n: int, d: int)
    requires
        0 <= d < n,
        qabl_to(t, res, src, d),
    ensures
        qabl_msgs(t, res, src, n).contains(qmsg(d, res, local_info(t, res, d))),
    decreases n,
{
    let m = qabl_msgs(t, res, src, n);
    if d == n - 1 {
        assert(m[m.len() - 1] == qmsg(d, res, local_info(t, res, d)));
    } else {
        lemma_qabl_msgs_contain(t, res, src, n - 1, d);
        let p = qabl_msgs(t, res, src, n - 1);
        let j = choose|j: int| 0 <= j < p.len() && p[j] == qmsg(d, res, local_info(t, res, d));
        assert(m[j] == qmsg(d, res, local_info(t, res, d)));
    }
}

proof fn lemma_qsent_from_propagate(t2: Tables, t3: Tables, res: int, src: usize)
    requires
        same_but_local_qabls(t2, t3),
        0 <= res < t2.resources@.len(),
        src < t2.faces@.len(),
    ensures
        clients_qsent(t2, t3, qabl_msgs(t2, res, Some(src), t2.faces@.len() as int), res, src as int),
{
    assert forall|d: int|
        0 <= d < t2.faces@.len() && d != src && #[trigger] t2.faces@[d].whatami == WhatAmI::Client
            && told(t2.faces@[d].local_qabls@, res as usize) != Some(local_info(t3, res, d))
            implies qabl_msgs(t2, res, Some(src), t2.faces@.len() as int).contains(qmsg(d, res, local_info(t3, res, d))) by {
        lemma_local_info_frame(t2, t3, res, d);
        assert(qabl_allowed(t2, Some(src), d));
        assert(qabl_to(t2, res, Some(src), d));
        lemma_qabl_msgs_contain(t2, res, Some(src), t2.faces@.len() as int, d);
    }
}

proof fn lemma_qsent_transfer(t0: Tables, t2: Tables, t3: Tables, a: Seq<Outbound>, b: Seq<Outbound>, res: int, src: int)
    requires
        t2.faces@.len() == t0.faces@.len(),
        forall|f: int| 0 <= f < t0.faces@.len() ==> (#[trigger] t2.faces@[f]).local_qabls == t0.faces@[f].local_qabls
            && t2.faces@[f].whatami == t0.faces@[f].whatami,
        clients_qsent(t2, t3, a, res, src),
        forall|o: Outbound| a.contains(o) ==> b.contains(o),
    ensures
        clients_qsent(t0, t3, b, res, src),
{
    assert forall|d: int|
        0 <= d < t0.faces@.len() && d != src && #[trigger] t0.faces@[d].whatami == WhatAmI::Client
            && told(t0.faces@[d].local_qabls@, res as usize) != Some(local_info(t3, res, d))
            implies b.contains(qmsg(d, res, local_info(t3, res, d))) by {
        assert(t2.faces@[d].local_qabls == t0.faces@[d].local_qabls && t2.faces@[d].whatami == t0.faces@[d].whatami);
    }
}

/// Registers the queryable `info` of peer `peer` on `res` in the peer
/// scope, forwards it along the peer tree of `peer` when it changed, and
/// on a peer re-announces the aggregate to the faces.
pub fn register_peer_queryable(
    t: &mut Tables,
    face: Option<usize>,
    res: usize,
    info: QueryableInfo,
    peer: ZenohId,
    out: &mut Vec<Outbound>,
)
    requires
        res < old(t).resources@.len(),
        face matches Some(f) ==> f < old(t).faces@.len(),
    ensures
        final(t).faces@.len() == old(t).faces@.len(),
        final(t).resources@.len() == old(t).resources@.len(),
        final(t).zid == old(t).zid && final(t).whatami == old(t).whatami && final(t).full_peer_net == old(t).full_peer_net,
        info_of(final(t).resources@[res as int].peer_qabls@, peer) == Some(info),
        forall|x: ZenohId| x != peer ==> info_of(final(t).resources@[res as int].peer_qabls@, x) == info_of(old(t).resources@[res as int].peer_qabls@, x),
        final(t).resources@[res as int].router_qabls == old(t).resources@[res as int].router_qabls,
        final(t).resources@[res as int].session_ctxs == old(t).resources@[res as int].session_ctxs,
        forall|r: int| 0 <= r < old(t).resources@.len() && r != res ==> #[trigger] final(t).resources@[r] == old(t).resources@[r],
        forall|f: int| 0 <= f < old(t).faces@.len() ==> (#[trigger] final(t).faces@[f]).remote_qabls == old(t).faces@[f].remote_qabls
            && final(t).faces@[f].whatami == old(t).faces@[f].whatami,
        final(t).whatami == WhatAmI::Peer ==> (face matches Some(f) ==> clients_told(*final(t), res as int, f as int)),
        final(out)@.len() >= old(out)@.len(),
        final(out)@.subrange(0, old(out)@.len() as int) == old(out)@,
        old(t).whatami != WhatAmI::Peer ==> final(t).faces == old(t).faces,
        old(t).whatami == WhatAmI::Peer ==> (face matches Some(f) ==> clients_qsent(*old(t), *final(t),
            final(out)@.subrange(old(out)@.len() as int, final(out)@.len() as int), res as int, f as int)),
{
    let ghost t0 = *t;
    let ghost o0 = out@;
    if info_of_exec(&t.resources[res].peer_qabls, peer) != Some(info) {
        let v = set_info(&t.resources[res].peer_qabls, peer, info);
        t.set_peer_qabls(res, v);
        if !contains_index(&t.peer_qabls, res) {
            t.peer_qabls.push(res);
        }
        crate::pubsub::propagate_sourced(t, Declaration::DeclareQueryable { res, info }, face, peer, WhatAmI::Peer, out);
    }
    assert(out@.subrange(0, o0.len() as int) =~= o0);
    assert(t.faces == t0.faces);
    if t.whatami == WhatAmI::Peer {
        let ghost t1 = *t;
        let ghost o1 = out@;
        propagate_simple_queryable(t, res, face, out);
        proof {
            assert(out@.subrange(0, o1.len() as int) =~= o1);
            assert(out@.subrange(0, o0.len() as int) =~= o0);
            if face is Some {
                lemma_clients_told(t1, *t, res as int, face->Some_0);
                lemma_qsent_from_propagate(t1, *t, res as int, face->Some_0);
                assert(out@.subrange(o1.len() as int, out@.len() as int) =~= qabl_msgs(t1, res as int, face, t1.faces@.len() as int));
                crate::pubsub::lemma_suffix_contains(o0, o1, out@);
                lemma_qsent_transfer(t0, t1, *t, out@.subrange(o1.len() as int, out@.len() as int),
                    out@.subrange(o0.len() as int, out@.len() as int), res as int, face->Some_0 as int);
            }
            assert forall|f: int| 0 <= f < t1.faces@.len() implies (#[trigger] t.faces@[f]).remote_qabls == t1.faces@[f].remote_qabls
                && t.faces@[f].whatami == t1.faces@[f].whatami by {
                assert(t.faces@[f] == (FaceState { local_qabls: t.faces@[f].local_qabls, ..t1.faces@[f] }));
            }
        }
    }
}

/// Registers the queryable `info` of router `router` on `res` in the
/// router scope, forwards it along the router tree of `router` when it
/// changed, registers this node's aggregate in the peer scope of a full
/// mesh (unless the declaring face is a peer), and re-announces the
/// aggregate to the faces.
pub fn register_router_queryable(
    t: &mut Tables,
    face: Option<usize>,
    res: usize,
    info: QueryableInfo,
    router: ZenohId,
    out: &mut Vec<Outbound>,
)
    requires
        res < old(t).resources@.len(),
        face matches Some(f) ==> f < old(t).faces@.len(),
    ensures
        final(t).faces@.len() == old(t).faces@.len(),
        final(t).resources@.len() == old(t).resources@.len(),
        final(t).zid == old(t).zid && final(t).whatami == old(t).whatami && final(t).full_peer_net == old(t).full_peer_net,
        info_of(final(t).resources@[res as int].router_qabls@, router) == Some(info),
        forall|x: ZenohId| x != old(t).zid ==> info_of(final(t).resources@[res as int].peer_qabls@, x) == info_of(old(t).resources@[res as int].peer_qabls@, x),
        !old(t).full_peer_net ==> final(t).resources@[res as int].peer_qabls == old(t).resources@[res as int].peer_qabls,
        final(t).resources@[res as int].session_ctxs == old(t).resources@[res as int].session_ctxs,
        forall|r: int| 0 <= r < old(t).resources@.len() && r != res ==> #[trigger] final(t).resources@[r] == old(t).resources@[r],
        forall|f: int| 0 <= f < old(t).faces@.len() ==> (#[trigger] final(t).faces@[f]).remote_qabls == old(t).faces@[f].remote_qabls
            && final(t).faces@[f].whatami == old(t).faces@[f].whatami,
        face matches Some(f) ==> clients_told(*final(t), res as int, f as int),
        final(out)@.len() >= old(out)@.len(),
        final(out)@.subrange(0, old(out)@.len() as int) == old(out)@,
        old(t).whatami != WhatAmI::Peer ==> (face matches Some(f) ==> clients_qsent(*old(t), *final(t),
            final(out)@.subrange(old(out)@.len() as int, final(out)@.len() as int), res as int, f as int)),
{
    let ghost t0 = *t;
    let ghost o0 = out@;
    if info_of_exec(&t.resources[res].router_qabls, router) != Some(info) {
        let v = set_info(&t.resources[res].router_qabls, router, info);
        t.set_router_qabls(res, v);
        if !contains_index(&t.router_qabls, res) {
            t.router_qabls.push(res);
        }
        crate::pubsub::propagate_sourced(t, Declaration::DeclareQueryable { res, info }, face, router, WhatAmI::Router, out);
    }
    let from_peer = match face {
        Some(f) => t.faces[f].whatami == WhatAmI::Peer,
        None => false,
    };
    if t.full_peer_net && !from_peer {
        let local = local_peer_qabl_info(t, res);
        let zid = t.zid;
        register_peer_queryable(t, face, res, local, zid, out);
    }
    let ghost t1 = *t;
    let ghost o1 = out@;
    assert(out@.subrange(0, o0.len() as int) =~= o0);
    propagate_simple_queryable(t, res, face, out);
    proof {
        assert(out@.subrange(0, o1.len() as int) =~= o1);
        assert(out@.subrange(0, o0.len() as int) =~= o0);
        if face is Some {
            lemma_clients_told(t1, *t, res as int, face->Some_0);
            if t0.whatami != WhatAmI::Peer {
                assert(t1.faces == t0.faces);
                lemma_qsent_from_propagate(t1, *t, res as int, face->Some_0);
                assert(out@.subrange(o1.len() as int, out@.len() as int) =~= qabl_msgs(t1, res as int, face, t1.faces@.len() as int));
                crate::pubsub::lemma_suffix_contains(o0, o1, out@);
                lemma_qsent_transfer(t0, t1, *t, out@.subrange(o1.len() as int, out@.len() as int),
                    out@.subrange(o0.len() as int, out@.len() as int), res as int, face->Some_0 as int);
            }
        }
        assert forall|f: int| 0 <= f < t1.faces@.len() implies (#[trigger] t.faces@[f]).remote_qabls == t1.faces@[f].remote_qabls
            && t.faces@[f].whatami == t1.faces@[f].whatami by {
            assert(t.faces@[f] == (FaceState { local_qabls: t.faces@[f].local_qabls, ..t1.faces@[f] }));
        }
    }
}

/// Handles a queryable on `res` declared by face `face`: records it in
/// the client scope, then registers this node's aggregate in the router
/// scope (on a router) or peer scope (on a peer of a full mesh), or
/// re-announces the aggregate directly. A face or resource that does not
/// exist makes the declaration void.
pub fn declare_client_queryable(t: &mut Tables, face: usize, res: usize, info: QueryableInfo, out: &mut Vec<Outbound>)
    ensures
        !(face < old(t).faces@.len() && res < old(t).resources@.len()) ==> *final(t) == *old(t) && final(out)@ == old(out)@,
        face < old(t).faces@.len() && res < old(t).resources@.len() ==> {
            &&& client_qabl(*final(t), res as int, face)
            &&& final(t).faces@[face as int].remote_qabls@.contains(res)
            &&& clients_told(*final(t), res as int, face as int)
            &&& (old(t).whatami == WhatAmI::Router ==> info_of(final(t).resources@[res as int].router_qabls@, old(t).zid) is Some)
            &&& (old(t).whatami == WhatAmI::Peer && old(t).full_peer_net ==> info_of(final(t).resources@[res as int].peer_qabls@, old(t).zid) is Some)
            &&& final(out)@.len() >= old(out)@.len()
            &&& final(out)@.subrange(0, old(out)@.len() as int) == old(out)@
            &&& clients_qsent(*old(t), *final(t), final(out)@.subrange(old(out)@.len() as int, final(out)@.len() as int), res as int, face as int)
        },
{
    if face >= t.faces.len() || res >= t.resources.len() {
        return;
    }
    let ghost t0 = *t;
    let ghost o0 = out@;
    let mut ctxs = copy_sessions(&t.resources[res].session_ctxs);
    let mut k: usize = 0;
    while k < ctxs.len() && ctxs[k].face != face
        invariant
            k <= ctxs@.len(),
        decreases ctxs@.len() - k,
    {
        k = k + 1;
    }
    if k < ctxs.len() {
        let ctx = ctxs.remove(k);
        ctxs.insert(k, SessionContext { face, subs: ctx.subs, qabl: Some(info) });
        assert(ctxs@[k as int].face == face && ctxs@[k as int].qabl is Some);
    } else {
        ctxs.push(SessionContext { face, subs: None, qabl: Some(info) });
        assert(ctxs@[ctxs@.len() - 1].face == face);
    }
    t.set_session_ctxs(res, ctxs);
    if !contains_index(&t.faces[face].remote_qabls, res) {
        let mut v = copy_indices(&t.faces[face].remote_qabls);
        v.push(res);
        t.set_remote_qabls(face, v);
        assert(v@[v@.len() - 1] == res);
    }
    let ghost t1 = *t;
    assert(client_qabl(t1, res as int, face));
    let zid = t.zid;
    match t.whatami {
        WhatAmI::Router => {
            let local = local_router_qabl_info(t, res);
            register_router_queryable(t, Some(face), res, local, zid, out);
        },
        WhatAmI::Peer => {
            if t.full_peer_net {
                let local = local_peer_qabl_info(t, res);
                register_peer_queryable(t, Some(face), res, local, zid, out);
            } else {
                propagate_simple_queryable(t, res, Some(face), out);
                proof {
                    lemma_clients_told(t1, *t, res as int, face);
                    lemma_qsent_from_propagate(t1, *t, res as int, face);
                    assert(out@.subrange(o0.len() as int, out@.len() as int) =~= qabl_msgs(t1, res as int, Some(face), t1.faces@.len() as int));
                    assert(t.faces@[face as int] == (FaceState { local_qabls: t.faces@[face as int].local_qabls, ..t1.faces@[face as int] }));
                }
            }
        },
        WhatAmI::Client => {
            propagate_simple_queryable(t, res, Some(face), out);
            proof {
                lemma_clients_told(t1, *t, res as int, face);
                lemma_qsent_from_propagate(t1, *t, res as int, face);
                assert(out@.subrange(o0.len() as int, out@.len() as int) =~= qabl_msgs(t1, res as int, Some(face), t1.faces@.len() as int));
                assert(t.faces@[face as int] == (FaceState { local_qabls: t.faces@[face as int].local_qabls, ..t1.faces@[face as int] }));
            }
        },
    }
    proof {
        assert(out@.subrange(0, o0.len() as int) =~= o0);
        let extra = out@.subrange(o0.len() as int, out@.len() as int);
        assert forall|f: int| 0 <= f < t0.faces@.len() implies (#[trigger] t1.faces@[f]).local_qabls == t0.faces@[f].local_qabls
            && t1.faces@[f].whatami == t0.faces@[f].whatami by {}
        lemma_qsent_transfer(t0, t1, *t, extra, extra, res as int, face as int);
        let k = choose|k: int| 0 <= k < t1.resources@[res as int].session_ctxs@.len() && #[trigger] t1.resources@[res as int].session_ctxs@[k].face == face
            && t1.resources@[res as int].session_ctxs@[k].qabl is Some;
        assert(t.resources@[res as int].session_ctxs@[k].face == face);
    }
}

fn copy_sessions(v: &Vec<SessionContext>) -> (r: Vec<SessionContext>)
    ensures
        r@ == v@,
{
    let mut r: Vec<SessionContext> = Vec::new();
    let mut k: usize = 0;
    while k < v.len()
        invariant
            k <= v@.len(),
            r@ == v@.subrange(0, k as int),
        decreases v@.len() - k,
    {
        r.push(v[k]);
        k = k + 1;
        assert(r@ =~= v@.subrange(0, k as int));
    }
    assert(v@.subrange(0, k as int) =~= v@);
    r
}

} // verus!

verus! {

/// Handles a queryable on `res` that router `router` announced with
/// `info`, heard on face `face`. A face or resource that does not exist
/// makes the declaration void.
pub fn declare_router_queryable(t: &mut Tables, face: usize, res: usize, info: QueryableInfo, router: ZenohId, out: &mut Vec<Outbound>)
    ensures
        !(face < old(t).faces@.len() && res < old(t).resources@.len()) ==> *final(t) == *old(t) && final(out)@ == old(out)@,
        face < old(t).faces@.len() && res < old(t).resources@.len() ==> {
            &&& info_of(final(t).resources@[res as int].router_qabls@, router) == Some(info)
            &&& clients_told(*final(t), res as int, face as int)
        },
{
    if face >= t.faces.len() || res >= t.resources.len() {
        return;
    }
    register_router_queryable(t, Some(face), res, info, router, out);
}

/// Handles a queryable on `res` that peer `peer` announced with `info`,
/// heard on face `face`; a router also registers its own aggregate in the
/// router scope. A face or resource that does not exist makes the
/// declaration void.
pub fn declare_peer_queryable(t: &mut Tables, face: usize, res: usize, info: QueryableInfo, peer: ZenohId, out: &mut Vec<Outbound>)
    ensures
        !(face < old(t).faces@.len() && res < old(t).resources@.len()) ==> *final(t) == *old(t) && final(out)@ == old(out)@,
        face < old(t).faces@.len() && res < old(t).resources@.len() ==> {
            &&& (old(t).whatami != WhatAmI::Router || peer != old(t).zid) ==> info_of(final(t).resources@[res as int].peer_qabls@, peer) == Some(info)
            &&& old(t).whatami == WhatAmI::Router ==> info_of(final(t).resources@[res as int].router_qabls@, old(t).zid) is Some
            &&& old(t).whatami == WhatAmI::Router && !old(t).full_peer_net ==> info_of(final(t).resources@[res as int].router_qabls@, old(t).zid)
                == Some(router_scope_info(*final(t), res as int))
            &&& old(t).whatami != WhatAmI::Client ==> clients_told(*final(t), res as int, face as int)
        },
{
    if face >= t.faces.len() || res >= t.resources.len() {
        return;
    }
    register_peer_queryable(t, Some(face), res, info, peer, out);
    if t.whatami == WhatAmI::Router {
        let ghost t1 = *t;
        let local = local_router_qabl_info(t, res);
        let zid = t.zid;
        register_router_queryable(t, Some(face), res, local, zid, out);
        proof {
            if !t1.full_peer_net {
                assert(t.resources@[res as int].peer_qabls == t1.resources@[res as int].peer_qabls);
                assert(router_scope_info(*t, res as int) == router_scope_info(t1, res as int));
            }
        }
    }
}

/// `t1` differs from `t0` only in the registrations of `res`, the global
/// indexes, and faces being told less about `res`.
pub open spec fn qforget_frame(t0: Tables, t1: Tables, res: int) -> bool {
    &&& t1.zid == t0.zid
    &&& t1.whatami == t0.whatami
    &&& t1.full_peer_net == t0.full_peer_net
    &&& t1.routers_net == t0.routers_net
    &&& t1.peers_net == t0.peers_net
    &&& t1.faces@.len() == t0.faces@.len()
    &&& t1.resources@.len() == t0.resources@.len()
    &&& forall|f: int|
        0 <= f < t0.faces@.len() ==> (#[trigger] t1.faces@[f]).zid == t0.faces@[f].zid
            && t1.faces@[f].whatami == t0.faces@[f].whatami && t1.faces@[f].id == t0.faces@[f].id
            && t1.faces@[f].remote_qabls == t0.faces@[f].remote_qabls
    &&& forall|f: int, x: usize|
        0 <= f < t0.faces@.len() && x != res ==> #[trigger] told(t1.faces@[f].local_qabls@, x) == told(t0.faces@[f].local_qabls@, x)
    &&& forall|f: int|
        0 <= f < t0.faces@.len() && #[trigger] told(t1.faces@[f].local_qabls@, res as usize) is Some ==> told(t0.faces@[f].local_qabls@, res as usize) is Some
    &&& forall|r: int| 0 <= r < t0.resources@.len() && r != res ==> #[trigger] t1.resources@[r] == t0.resources@[r]
    &&& t1.resources@[res].session_ctxs == t0.resources@[res].session_ctxs
}

/// No face has been told of queryables on `res`.
pub open spec fn nobody_told(t: Tables, res: int) -> bool {
    forall|f: int| 0 <= f < t.faces@.len() ==> #[trigger] told(t.faces@[f].local_qabls@, res as usize) is None
}

proof fn lemma_qforget_trans(a: Tables, b: Tables, c: Tables, res: int)
    requires
        0 <= res < a.resources@.len(),
        qforget_frame(a, b, res),
        qforget_frame(b, c, res),
    ensures
        qforget_frame(a, c, res),
        nobody_told(b, res) ==> nobody_told(c, res),
{
    assert forall|f: int| 0 <= f < a.faces@.len() implies (#[trigger] c.faces@[f]).zid == a.faces@[f].zid
        && c.faces@[f].whatami == a.faces@[f].whatami && c.faces@[f].id == a.faces@[f].id
        && c.faces@[f].remote_qabls == a.faces@[f].remote_qabls by {
        assert(b.faces@[f].zid == a.faces@[f].zid);
    }
    assert forall|f: int, x: usize| 0 <= f < a.faces@.len() && x != res implies #[trigger] told(c.faces@[f].local_qabls@, x) == told(a.faces@[f].local_qabls@, x) by {
        assert(told(b.faces@[f].local_qabls@, x) == told(a.faces@[f].local_qabls@, x));
    }
    assert forall|f: int| 0 <= f < a.faces@.len() && #[trigger] told(c.faces@[f].local_qabls@, res as usize) is Some implies told(a.faces@[f].local_qabls@, res as usize) is Some by {
        assert(told(b.faces@[f].local_qabls@, res as usize) is Some);
    }
    assert forall|r: int| 0 <= r < a.resources@.len() && r != res implies #[trigger] c.resources@[r] == a.resources@[r] by {
        assert(b.resources@[r] == a.resources@[r]);
    }
    if nobody_told(b, res) {
        assert forall|f: int| 0 <= f < c.faces@.len() implies #[trigger] told(c.faces@[f].local_qabls@, res as usize) is None by {
            if told(c.faces@[f].local_qabls@, res as usize) is Some {
                assert(told(b.faces@[f].local_qabls@, res as usize) is Some);
            }
        }
    }
}

/// `v` without the entry of `res`.
fn untell(v: &Vec<(usize, QueryableInfo)>, res: usize) -> (r: Vec<(usize, QueryableInfo)>)
    ensures
        told(r@, res) is None,
        forall|x: usize| x != res ==> told(r@, x) == told(v@, x),
{
    let mut r: Vec<(usize, QueryableInfo)> = Vec::new();
    let mut k: usize = 0;
    while k < v.len()
        invariant
            k <= v@.len(),
            told(r@, res) is None,
            forall|x: usize| x != res ==> told(r@, x) == told(v@.subrange(0, k as int), x),
        decreases v@.len() - k,
    {
        let ghost before = r@;
        assert(v@.subrange(0, k + 1).drop_last() =~= v@.subrange(0, k as int));
        if v[k].0 != res {
            r.push(v[k]);
            assert(r@.drop_last() =~= before);
        }
        assert forall|x: usize| x != res implies told(r@, x) == told(v@.subrange(0, k + 1), x) by {
            assert(told(before, x) == told(v@.subrange(0, k as int), x));
        }
        k = k + 1;
    }
    assert(v@.subrange(0, k as int) =~= v@);
    r
}

/// Withdraws the queryables on `res` from every face that was told of them.
pub fn propagate_forget_simple_queryable(t: &mut Tables, res: usize, out: &mut Vec<Outbound>)
    requires
        res < old(t).resources@.len(),
    ensures
        same_but_local_qabls(*old(t), *final(t)),
        qforget_frame(*old(t), *final(t), res as int),
        nobody_told(*final(t), res as int),
{
    let ghost t0 = *t;
    let mut d: usize = 0;
    while d < t.faces.len()
        invariant
            d <= t.faces@.len(),
            res < t0.resources@.len(),
            t.faces@.len() == t0.faces@.len(),
            same_but_local_qabls(t0, *t),
            forall|f: int, x: usize| 0 <= f < t0.faces@.len() && x != res ==> #[trigger] told(t.faces@[f].local_qabls@, x) == told(t0.faces@[f].local_qabls@, x),
            forall|f: int| 0 <= f < t0.faces@.len() && #[trigger] told(t.faces@[f].local_qabls@, res) is Some ==> told(t0.faces@[f].local_qabls@, res) is Some,
            forall|f: int| 0 <= f < d ==> #[trigger] told(t.faces@[f].local_qabls@, res) is None,
        decreases t.faces@.len() - d,
    {
        let ghost before = *t;
        if told_exec(&t.faces[d].local_qabls, res).is_some() {
            let v = untell(&t.faces[d].local_qabls, res);
            t.set_local_qabls(d, v);
            out.push(Outbound { face: d, node_id: 0, body: Declaration::UndeclareQueryable { res } });
        }
        assert forall|f: int| 0 <= f < t0.faces@.len() implies #[trigger] t.faces@[f] == (FaceState {
            local_qabls: t.faces@[f].local_qabls,
            ..t0.faces@[f]
        }) by {
            assert(before.faces@[f] == (FaceState { local_qabls: before.faces@[f].local_qabls, ..t0.faces@[f] }));
        }
        assert forall|f: int, x: usize| 0 <= f < t0.faces@.len() && x != res implies #[trigger] told(t.faces@[f].local_qabls@, x) == told(t0.faces@[f].local_qabls@, x) by {
            assert(told(before.faces@[f].local_qabls@, x) == told(t0.faces@[f].local_qabls@, x));
        }
        assert forall|f: int| 0 <= f < t0.faces@.len() && #[trigger] told(t.faces@[f].local_qabls@, res) is Some implies told(t0.faces@[f].local_qabls@, res) is Some by {
            assert(told(before.faces@[f].local_qabls@, res) is Some);
        }
        d = d + 1;
    }
    proof {
        assert forall|f: int| 0 <= f < t0.faces@.len() implies (#[trigger] t.faces@[f]).zid == t0.faces@[f].zid
            && t.faces@[f].whatami == t0.faces@[f].whatami && t.faces@[f].id == t0.faces@[f].id
            && t.faces@[f].remote_qabls == t0.faces@[f].remote_qabls by {
            assert(t.faces@[f] == (FaceState { local_qabls: t.faces@[f].local_qabls, ..t0.faces@[f] }));
        }
    }
}

/// `v` without the announcements of source `z`.
fn remove_source(v: &Vec<(ZenohId, QueryableInfo)>, z: ZenohId) -> (r: Vec<(ZenohId, QueryableInfo)>)
    ensures
        info_of(r@, z) is None,
        forall|x: ZenohId| x != z ==> info_of(r@, x) == info_of(v@, x),
        r@.len() == 0 <==> forall|k: int| 0 <= k < v@.len() ==> v@[k].0 == z,
{
    let mut r: Vec<(ZenohId, QueryableInfo)> = Vec::new();
    let mut k: usize = 0;
    while k < v.len()
        invariant
            k <= v@.len(),
            info_of(r@, z) is None,
            forall|x: ZenohId| x != z ==> info_of(r@, x) == info_of(v@.subrange(0, k as int), x),
            r@.len() == 0 <==> forall|j: int| 0 <= j < k ==> v@[j].0 == z,
        decreases v@.len() - k,
    {
        let ghost before = r@;
        assert(v@.subrange(0, k + 1).drop_last() =~= v@.subrange(0, k as int));
        if v[k].0 != z {
            r.push(v[k]);
            assert(r@.drop_last() =~= before);
        }
        assert forall|x: ZenohId| x != z implies info_of(r@, x) == info_of(v@.subrange(0, k + 1), x) by {
            assert(info_of(before, x) == info_of(v@.subrange(0, k as int), x));
        }
        k = k + 1;
    }
    assert(v@.subrange(0, k as int) =~= v@);
    r
}

/// Removes peer `peer` from the peer scope of `res`; once no peer is left,
/// `res` leaves the peer index and, on a peer, is withdrawn from every face.
pub fn unregister_peer_queryable(t: &mut Tables, res: usize, peer: ZenohId, out: &mut Vec<Outbound>)
    requires
        res < old(t).resources@.len(),
    ensures
        qforget_frame(*old(t), *final(t), res as int),
        info_of(final(t).resources@[res as int].peer_qabls@, peer) is None,
        forall|x: ZenohId| x != peer ==> info_of(final(t).resources@[res as int].peer_qabls@, x) == info_of(old(t).resources@[res as int].peer_qabls@, x),
        final(t).resources@[res as int].router_qabls == old(t).resources@[res as int].router_qabls,
        final(t).resources@[res as int].peer_qabls@.len() == 0 && final(t).whatami == WhatAmI::Peer ==> nobody_told(*final(t), res as int),
        (forall|k: int| 0 <= k < old(t).resources@[res as int].peer_qabls@.len() ==> old(t).resources@[res as int].peer_qabls@[k].0 == peer)
            ==> final(t).resources@[res as int].peer_qabls@.len() == 0,
{
    let ghost t0 = *t;
    let v = remove_source(&t.resources[res].peer_qabls, peer);
    let empty = v.len() == 0;
    t.set_peer_qabls(res, v);
    assert(qforget_frame(t0, *t, res as int));
    if empty {
        let idx = crate::pubsub::remove_all(&t.peer_qabls, res);
        t.peer_qabls = idx;
        if t.whatami == WhatAmI::Peer {
            let ghost t1 = *t;
            propagate_forget_simple_queryable(t, res, out);
            proof { lemma_qforget_trans(t0, t1, *t, res as int); }
        }
    }
}

/// Removes peer `peer` from the peer scope of `res`, if it is there, and
/// withdraws it along the peer tree of `peer`.
pub fn undeclare_peer_queryable(t: &mut Tables, face: Option<usize>, res: usize, peer: ZenohId, out: &mut Vec<Outbound>)
    requires
        res < old(t).resources@.len(),
    ensures
        qforget_frame(*old(t), *final(t), res as int),
        info_of(final(t).resources@[res as int].peer_qabls@, peer) is None,
        forall|x: ZenohId| x != peer ==> info_of(final(t).resources@[res as int].peer_qabls@, x) == info_of(old(t).resources@[res as int].peer_qabls@, x),
        final(t).resources@[res as int].router_qabls == old(t).resources@[res as int].router_qabls,
        (forall|k: int| 0 <= k < old(t).resources@[res as int].peer_qabls@.len() ==> old(t).resources@[res as int].peer_qabls@[k].0 == peer)
            ==> final(t).resources@[res as int].peer_qabls@.len() == 0,
        info_of(old(t).resources@[res as int].peer_qabls@, peer) is Some && final(t).resources@[res as int].peer_qabls@.len() == 0
            && final(t).whatami == WhatAmI::Peer ==> nobody_told(*final(t), res as int),
{
    if info_of_exec(&t.resources[res].peer_qabls, peer).is_some() {
        unregister_peer_queryable(t, res, peer, out);
        crate::pubsub::propagate_sourced(t, Declaration::UndeclareQueryable { res }, face, peer, WhatAmI::Peer, out);
    } else {
        assert(qforget_frame(*old(t), *t, res as int));
    }
}

/// Removes router `router` from the router scope of `res`; once no router
/// is left, `res` leaves the router index, this node leaves the peer scope
/// of a full mesh, and `res` is withdrawn from every face.
pub fn unregister_router_queryable(t: &mut Tables, res: usize, router: ZenohId, out: &mut Vec<Outbound>)
    requires
        res < old(t).resources@.len(),
    ensures
        qforget_frame(*old(t), *final(t), res as int),
        info_of(final(t).resources@[res as int].router_qabls@, router) is None,
        forall|x: ZenohId| x != old(t).zid ==> info_of(final(t).resources@[res as int].peer_qabls@, x) == info_of(old(t).resources@[res as int].peer_qabls@, x),
        final(t).resources@[res as int].router_qabls@.len() == 0 ==> nobody_told(*final(t), res as int),
        (forall|k: int| 0 <= k < old(t).resources@[res as int].router_qabls@.len() ==> old(t).resources@[res as int].router_qabls@[k].0 == router)
            ==> final(t).resources@[res as int].router_qabls@.len() == 0,
{
    let ghost t0 = *t;
    let v = remove_source(&t.resources[res].router_qabls, router);
    let empty = v.len() == 0;
    t.set_router_qabls(res, v);
    assert(qforget_frame(t0, *t, res as int));
    if empty {
        let idx = crate::pubsub::remove_all(&t.router_qabls, res);
        t.router_qabls = idx;
        if t.full_peer_net {
            let ghost t1 = *t;
            let zid = t.zid;
            undeclare_peer_queryable(t, None, res, zid, out);
            proof { lemma_qforget_trans(t0, t1, *t, res as int); }
        }
        let ghost t2 = *t;
        propagate_forget_simple_queryable(t, res, out);
        proof { lemma_qforget_trans(t0, t2, *t, res as int); }
    }
}

/// Removes router `router` from the router scope of `res`, if it is
/// there, and withdraws it along the router tree of `router`.
pub fn undeclare_router_queryable(t: &mut Tables, face: Option<usize>, res: usize, router: ZenohId, out: &mut Vec<Outbound>)
    requires
        res < old(t).resources@.len(),
    ensures
        qforget_frame(*old(t), *final(t), res as int),
        info_of(final(t).resources@[res as int].router_qabls@, router) is None,
        forall|x: ZenohId| x != old(t).zid ==> info_of(final(t).resources@[res as int].peer_qabls@, x) == info_of(old(t).resources@[res as int].peer_qabls@, x),
        info_of(old(t).resources@[res as int].router_qabls@, router) is Some && final(t).resources@[res as int].router_qabls@.len() == 0
            ==> nobody_told(*final(t), res as int),
        (forall|k: int| 0 <= k < old(t).resources@[res as int].router_qabls@.len() ==> old(t).resources@[res as int].router_qabls@[k].0 == router)
            ==> final(t).resources@[res as int].router_qabls@.len() == 0,
{
    if info_of_exec(&t.resources[res].router_qabls, router).is_some() {
        unregister_router_queryable(t, res, router, out);
        crate::pubsub::propagate_sourced(t, Declaration::UndeclareQueryable { res }, face, router, WhatAmI::Router, out);
    } else {
        assert(qforget_frame(*old(t), *t, res as int));
    }
}

/// Withdraws the queryable router `router` announced on `res`, heard on
/// face `face`. A face or resource that does not exist makes the call void.
pub fn forget_router_queryable(t: &mut Tables, face: usize, res: usize, router: ZenohId, out: &mut Vec<Outbound>)
    ensures
        !(face < old(t).faces@.len() && res < old(t).resources@.len()) ==> *final(t) == *old(t) && final(out)@ == old(out)@,
        face < old(t).faces@.len() && res < old(t).resources@.len() ==> {
            &&& qforget_frame(*old(t), *final(t), res as int)
            &&& info_of(final(t).resources@[res as int].router_qabls@, router) is None
            &&& (info_of(old(t).resources@[res as int].router_qabls@, router) is Some
                && (forall|k: int| 0 <= k < old(t).resources@[res as int].router_qabls@.len() ==> old(t).resources@[res as int].router_qabls@[k].0 == router)
                ==> final(t).resources@[res as int].router_qabls@.len() == 0 && nobody_told(*final(t), res as int))
        },
{
    if face >= t.faces.len() || res >= t.resources.len() {
        return;
    }
    undeclare_router_queryable(t, Some(face), res, router, out);
}

/// What follows on a router when peer `peer` withdraws its queryable on
/// `res`: with a client queryable or another peer's queryable left, this
/// router keeps its router-scope registration (the aggregate, when the
/// peer mesh is partial); otherwise it withdraws it, and no face is told
/// of `res` once no other router provides one either.
pub open spec fn peer_left(t0: Tables, tf: Tables, res: int, peer: ZenohId) -> bool {
    let others = client_qabl_faces(t0.resources@[res].session_ctxs@).len() > 0 || other_peer_qabls(t0, res, peer);
    &&& t0.whatami == WhatAmI::Router && others ==> info_of(tf.resources@[res].router_qabls@, t0.zid) is Some
    &&& t0.whatami == WhatAmI::Router && others && !t0.full_peer_net ==> info_of(tf.resources@[res].router_qabls@, t0.zid)
        == Some(router_scope_info(tf, res))
    &&& t0.whatami == WhatAmI::Router && !others ==> info_of(tf.resources@[res].router_qabls@, t0.zid) is None
}

/// Removes the queryable of peer `peer` on `res` (withdrawing it along the
/// peer tree when `sourced`), then has a router keep or withdraw its own
/// router-scope registration.
fn peer_qabl_gone(t: &mut Tables, face: Option<usize>, res: usize, peer: ZenohId, sourced: bool, out: &mut Vec<Outbound>)
    requires
        res < old(t).resources@.len(),
    ensures
        final(t).faces@.len() == old(t).faces@.len(),
        final(t).resources@.len() == old(t).resources@.len(),
        final(t).zid == old(t).zid && final(t).whatami == old(t).whatami && final(t).full_peer_net == old(t).full_peer_net,
        forall|r: int| 0 <= r < old(t).resources@.len() && r != res ==> #[trigger] final(t).resources@[r] == old(t).resources@[r],
        peer != old(t).zid ==> info_of(final(t).resources@[res as int].peer_qabls@, peer) is None,
        peer_left(*old(t), *final(t), res as int, peer),
        old(t).whatami == WhatAmI::Router && !(client_qabl_faces(old(t).resources@[res as int].session_ctxs@).len() > 0
            || other_peer_qabls(*old(t), res as int, peer)) && !has_remote_router_qabls(*old(t), res as int)
            && info_of(old(t).resources@[res as int].router_qabls@, old(t).zid) is Some ==> nobody_told(*final(t), res as int),
{
    let ghost t0 = *t;
    if sourced {
        undeclare_peer_queryable(t, face, res, peer, out);
    } else if info_of_exec(&t.resources[res].peer_qabls, peer).is_some() {
        unregister_peer_queryable(t, res, peer, out);
    } else {
        assert(qforget_frame(t0, *t, res as int));
    }
    if t.whatami == WhatAmI::Router {
        let ghost t1 = *t;
        let clients = client_qabls(t, res);
        let peer_rem = remote_peer_qabls(t, res);
        proof {
            lemma_info_of_some(t0.resources@[res as int].peer_qabls@);
            lemma_info_of_some(t1.resources@[res as int].peer_qabls@);
            assert(has_remote_peer_qabls(t1, res as int) == other_peer_qabls(t0, res as int, peer)) by {
                if has_remote_peer_qabls(t1, res as int) {
                    let k = choose|k: int| 0 <= k < t1.resources@[res as int].peer_qabls@.len() && #[trigger] t1.resources@[res as int].peer_qabls@[k].0 != t1.zid;
                    let x = t1.resources@[res as int].peer_qabls@[k].0;
                    assert(info_of(t1.resources@[res as int].peer_qabls@, x) is Some);
                }
                if other_peer_qabls(t0, res as int, peer) {
                    let x = choose|x: ZenohId| x != t0.zid && x != peer && #[trigger] info_of(t0.resources@[res as int].peer_qabls@, x) is Some;
                    assert(info_of(t1.resources@[res as int].peer_qabls@, x) is Some);
                    let k = choose|k: int| 0 <= k < t1.resources@[res as int].peer_qabls@.len() && #[trigger] t1.resources@[res as int].peer_qabls@[k].0 == x;
                    assert(t1.resources@[res as int].peer_qabls@[k].0 != t1.zid);
                }
            }
        }
        let zid = t.zid;
        if clients.len() == 0 && !peer_rem {
            undeclare_router_queryable(t, None, res, zid, out);
            proof {
                if !has_remote_router_qabls(t0, res as int) {
                    lemma_no_source_left(t1.resources@[res as int].router_qabls@, zid);
                }
            }
        } else {
            let local = local_router_qabl_info(t, res);
            register_router_queryable(t, None, res, local, zid, out);
            proof {
                if !t1.full_peer_net {
                    assert(t.resources@[res as int].peer_qabls == t1.resources@[res as int].peer_qabls);
                    assert(router_scope_info(*t, res as int) == router_scope_info(t1, res as int));
                }
            }
        }
    }
}

/// Withdraws the queryable peer `peer` announced on `res`, heard on face
/// `face`; a router then keeps its own router-scope registration while a
/// client queryable or another peer's queryable is left, and withdraws it
/// otherwise (see `peer_left`). A face or resource that does not exist
/// makes the call void.
pub fn forget_peer_queryable(t: &mut Tables, face: usize, res: usize, peer: ZenohId, out: &mut Vec<Outbound>)
    ensures
        !(face < old(t).faces@.len() && res < old(t).resources@.len()) ==> *final(t) == *old(t) && final(out)@ == old(out)@,
        face < old(t).faces@.len() && res < old(t).resources@.len() ==> {
            &&& final(t).faces@.len() == old(t).faces@.len()
            &&& peer != old(t).zid ==> info_of(final(t).resources@[res as int].peer_qabls@, peer) is None
            &&& peer_left(*old(t), *final(t), res as int, peer)
            &&& (old(t).whatami == WhatAmI::Router && !(client_qabl_faces(old(t).resources@[res as int].session_ctxs@).len() > 0
                || other_peer_qabls(*old(t), res as int, peer)) && !has_remote_router_qabls(*old(t), res as int)
                && info_of(old(t).resources@[res as int].router_qabls@, old(t).zid) is Some ==> nobody_told(*final(t), res as int))
        },
{
    if face >= t.faces.len() || res >= t.resources.len() {
        return;
    }
    peer_qabl_gone(t, Some(face), res, peer, true, out);
}

/// Some peer other than `peer` and this node has a queryable on `res`.
pub open spec fn other_peer_qabls(t: Tables, res: int, peer: ZenohId) -> bool {
    exists|x: ZenohId| x != t.zid && x != peer && #[trigger] info_of(t.resources@[res].peer_qabls@, x) is Some
}

proof fn lemma_info_of_some(v: Seq<(ZenohId, QueryableInfo)>)
    ensures
        forall|x: ZenohId| #[trigger] info_of(v, x) is Some <==> exists|k: int| 0 <= k < v.len() && #[trigger] v[k].0 == x,
    decreases v.len(),
{
    if v.len() > 0 {
        lemma_info_of_some(v.drop_last());
        assert forall|x: ZenohId| #[trigger] info_of(v, x) is Some <==> exists|k: int| 0 <= k < v.len() && #[trigger] v[k].0 == x by {
            if info_of(v.drop_last(), x) is Some {
                let k = choose|k: int| 0 <= k < v.drop_last().len() && #[trigger] v.drop_last()[k].0 == x;
                assert(v[k].0 == x);
            }
            if exists|k: int| 0 <= k < v.len() && #[trigger] v[k].0 == x {
                let k = choose|k: int| 0 <= k < v.len() && #[trigger] v[k].0 == x;
                if k < v.len() - 1 {
                    assert(v.drop_last()[k].0 == x);
                }
            }
        }
    }
}

} // verus!

verus! {

/// Some face other than `d` with a client queryable on `res` is a client,
/// or a peer that `d` reaches only through this node.
pub open spec fn qabl_bridged(t: Tables, res: int, d: int) -> bool {
    exists|k: int|
        0 <= k < t.resources@[res].session_ctxs@.len() && {
            let s = #[trigger] t.resources@[res].session_ctxs@[k];
            &&& (s.face as int) < t.faces@.len()
            &&& t.faces@[d].zid != t.faces@[s.face as int].zid
            &&& s.qabl is Some
            &&& (t.faces@[s.face as int].whatami == WhatAmI::Client || (t.faces@[s.face as int].whatami
                == WhatAmI::Peer && brokering(t.peers_net, t.faces@[s.face as int].zid, t.faces@[d].zid)))
        }
}

fn is_qabl_bridged(t: &Tables, res: usize, d: usize) -> (r: bool)
    requires
        res < t.resources@.len(),
        d < t.faces@.len(),
    ensures
        r == qabl_bridged(*t, res as int, d as int),
{
    let ctxs = &t.resources[res].session_ctxs;
    let mut k: usize = 0;
    while k < ctxs.len()
        invariant
            k <= ctxs@.len(),
            d < t.faces@.len(),
            ctxs@ == t.resources@[res as int].session_ctxs@,
            forall|j: int| 0 <= j < k ==> !({
                let s = #[trigger] ctxs@[j];
                &&& (s.face as int) < t.faces@.len()
                &&& t.faces@[d as int].zid != t.faces@[s.face as int].zid
                &&& s.qabl is Some
                &&& (t.faces@[s.face as int].whatami == WhatAmI::Client || (t.faces@[s.face as int].whatami
                    == WhatAmI::Peer && brokering(t.peers_net, t.faces@[s.face as int].zid, t.faces@[d as int].zid)))
            }),
        decreases ctxs@.len() - k,
    {
        let s = ctxs[k];
        if s.face < t.faces.len() && t.faces[d].zid != t.faces[s.face].zid && s.qabl.is_some() {
            let role = t.faces[s.face].whatami;
            if role == WhatAmI::Client || (role == WhatAmI::Peer && t.failover_brokering(t.faces[s.face].zid, t.faces[d].zid)) {
                assert(ctxs@[k as int] == s);
                return true;
            }
        }
        k = k + 1;
    }
    false
}

/// On a router of a partial peer mesh that is the only router with a
/// queryable on `res`, withdraws `res` from the peer faces that no longer
/// need this node to bridge them to a queryable.
pub fn propagate_forget_simple_queryable_to_peers(t: &mut Tables, res: usize, out: &mut Vec<Outbound>)
    requires
        res < old(t).resources@.len(),
    ensures
        same_but_local_qabls(*old(t), *final(t)),
        qforget_frame(*old(t), *final(t), res as int),
{
    let ghost t0 = *t;
    let only_self = t.resources[res].router_qabls.len() == 1 && t.resources[res].router_qabls[0].0 == t.zid;
    if t.full_peer_net || !only_self {
        return;
    }
    let mut d: usize = 0;
    while d < t.faces.len()
        invariant
            d <= t.faces@.len(),
            res < t0.resources@.len(),
            t.faces@.len() == t0.faces@.len(),
            same_but_local_qabls(t0, *t),
            forall|f: int, x: usize| 0 <= f < t0.faces@.len() && x != res ==> #[trigger] told(t.faces@[f].local_qabls@, x) == told(t0.faces@[f].local_qabls@, x),
            forall|f: int| 0 <= f < t0.faces@.len() && #[trigger] told(t.faces@[f].local_qabls@, res) is Some ==> told(t0.faces@[f].local_qabls@, res) is Some,
        decreases t.faces@.len() - d,
    {
        let ghost before = *t;
        if t.faces[d].whatami == WhatAmI::Peer && told_exec(&t.faces[d].local_qabls, res).is_some() && !is_qabl_bridged(t, res, d) {
            let v = untell(&t.faces[d].local_qabls, res);
            t.set_local_qabls(d, v);
            out.push(Outbound { face: d, node_id: 0, body: Declaration::UndeclareQueryable { res } });
        }
        assert forall|f: int| 0 <= f < t0.faces@.len() implies #[trigger] t.faces@[f] == (FaceState {
            local_qabls: t.faces@[f].local_qabls,
            ..t0.faces@[f]
        }) by {
            assert(before.faces@[f] == (FaceState { local_qabls: before.faces@[f].local_qabls, ..t0.faces@[f] }));
        }
        assert forall|f: int, x: usize| 0 <= f < t0.faces@.len() && x != res implies #[trigger] told(t.faces@[f].local_qabls@, x) == told(t0.faces@[f].local_qabls@, x) by {
            assert(told(before.faces@[f].local_qabls@, x) == told(t0.faces@[f].local_qabls@, x));
        }
        assert forall|f: int| 0 <= f < t0.faces@.len() && #[trigger] told(t.faces@[f].local_qabls@, res) is Some implies told(t0.faces@[f].local_qabls@, res) is Some by {
            assert(told(before.faces@[f].local_qabls@, res) is Some);
        }
        d = d + 1;
    }
    proof {
        assert forall|f: int| 0 <= f < t0.faces@.len() implies (#[trigger] t.faces@[f]).zid == t0.faces@[f].zid
            && t.faces@[f].whatami == t0.faces@[f].whatami && t.faces@[f].id == t0.faces@[f].id
            && t.faces@[f].remote_qabls == t0.faces@[f].remote_qabls by {
            assert(t.faces@[f] == (FaceState { local_qabls: t.faces@[f].local_qabls, ..t0.faces@[f] }));
        }
    }
}

/// The conditions under which withdrawing the last client queryable on
/// `res` leaves no face told of it: no other registration remains, and
/// this node's own registration is in the scope it uses.
pub open spec fn last_queryable_gone(t_before: Tables, t_after: Tables, res: int) -> bool {
    &&& client_qabl_faces(t_after.resources@[res].session_ctxs@).len() == 0
    &&& !has_remote_router_qabls(t_before, res)
    &&& !has_remote_peer_qabls(t_before, res)
    &&& (t_before.whatami == WhatAmI::Router ==> info_of(t_before.resources@[res].router_qabls@, t_before.zid) is Some)
    &&& (t_before.whatami == WhatAmI::Peer && t_before.full_peer_net
        ==> info_of(t_before.resources@[res].peer_qabls@, t_before.zid) is Some)
}

proof fn lemma_no_source_left(old_v: Seq<(ZenohId, QueryableInfo)>, z: ZenohId)
    requires
        !(exists|k: int| 0 <= k < old_v.len() && #[trigger] old_v[k].0 != z),
    ensures
        forall|k: int| 0 <= k < old_v.len() ==> old_v[k].0 == z,
{
    assert forall|k: int| 0 <= k < old_v.len() implies old_v[k].0 == z by {
        if old_v[k].0 != z {
            assert(exists|j: int| 0 <= j < old_v.len() && #[trigger] old_v[j].0 != z);
        }
    }
}

/// Clears the client queryable of `face` on `res` and drops `res` from the
/// face's remote declarations.
fn clear_client_queryable(t: &mut Tables, face: usize, res: usize)
    requires
        face < old(t).faces@.len(),
        res < old(t).resources@.len(),
    ensures
        final(t).zid == old(t).zid && final(t).whatami == old(t).whatami && final(t).full_peer_net == old(t).full_peer_net,
        final(t).routers_net == old(t).routers_net && final(t).peers_net == old(t).peers_net,
        final(t).faces@.len() == old(t).faces@.len(),
        final(t).resources@.len() == old(t).resources@.len(),
        forall|f: int| 0 <= f < old(t).faces@.len() ==> (#[trigger] final(t).faces@[f]).local_qabls == old(t).faces@[f].local_qabls
            && final(t).faces@[f].zid == old(t).faces@[f].zid && final(t).faces@[f].whatami == old(t).faces@[f].whatami,
        final(t).resources@[res as int].router_qabls == old(t).resources@[res as int].router_qabls,
        final(t).resources@[res as int].peer_qabls == old(t).resources@[res as int].peer_qabls,
        !client_qabl(*final(t), res as int, face),
        !final(t).faces@[face as int].remote_qabls@.contains(res),
{
    let old_ctxs = copy_sessions(&t.resources[res].session_ctxs);
    let mut ctxs: Vec<SessionContext> = Vec::new();
    let mut k: usize = 0;
    while k < old_ctxs.len()
        invariant
            k <= old_ctxs@.len(),
            ctxs@.len() == k,
            forall|j: int| 0 <= j < k ==> (#[trigger] ctxs@[j]).face == face ==> ctxs@[j].qabl is None,
        decreases old_ctxs@.len() - k,
    {
        let c = old_ctxs[k];
        if c.face == face {
            ctxs.push(SessionContext { face: c.face, subs: c.subs, qabl: None });
        } else {
            ctxs.push(c);
        }
        k = k + 1;
    }
    t.set_session_ctxs(res, ctxs);
    let v = crate::pubsub::remove_all(&t.faces[face].remote_qabls, res);
    t.set_remote_qabls(face, v);
}

/// Withdraws the client queryable of `face` on `res`, then withdraws or
/// re-announces the aggregate this node declared on behalf of its
/// clients. A face or resource that does not exist makes the call void.
pub fn forget_client_queryable(t: &mut Tables, face: usize, res: usize, out: &mut Vec<Outbound>)
    ensures
        !(face < old(t).faces@.len() && res < old(t).resources@.len()) ==> *final(t) == *old(t) && final(out)@ == old(out)@,
        face < old(t).faces@.len() && res < old(t).resources@.len() ==> {
            &&& !client_qabl(*final(t), res as int, face)
            &&& !final(t).faces@[face as int].remote_qabls@.contains(res)
            &&& (last_queryable_gone(*old(t), *final(t), res as int) ==> nobody_told(*final(t), res as int))
            &&& (old(t).whatami == WhatAmI::Router && client_qabl_faces(final(t).resources@[res as int].session_ctxs@).len() > 0
                ==> info_of(final(t).resources@[res as int].router_qabls@, old(t).zid) is Some)
            &&& (old(t).whatami == WhatAmI::Router && !old(t).full_peer_net
                && client_qabl_faces(final(t).resources@[res as int].session_ctxs@).len() > 0
                ==> info_of(final(t).resources@[res as int].router_qabls@, old(t).zid) == Some(router_scope_info(*final(t), res as int)))
        },
{
    if face >= t.faces.len() || res >= t.resources.len() {
        return;
    }
    let ghost t0 = *t;
    clear_client_queryable(t, face, res);
    let ghost t1 = *t;
    let clients = client_qabls(t, res);
    let router_rem = remote_router_qabls(t, res);
    let peer_rem = remote_peer_qabls(t, res);
    let zid = t.zid;
    let empty = clients.len() == 0;
    match t.whatami {
        WhatAmI::Router => {
            if empty && !peer_rem {
                undeclare_router_queryable(t, None, res, zid, out);
                proof {
                    if !has_remote_router_qabls(t1, res as int) {
                        lemma_no_source_left(t1.resources@[res as int].router_qabls@, zid);
                    }
                }
            } else {
                let local = local_router_qabl_info(t, res);
                register_router_queryable(t, None, res, local, zid, out);
                proof {
                    if !t1.full_peer_net {
                        assert(t.resources@[res as int].peer_qabls == t1.resources@[res as int].peer_qabls);
                        assert(router_scope_info(*t, res as int) == router_scope_info(t1, res as int));
                    }
                }
                let ghost t15 = *t;
                propagate_forget_simple_queryable_to_peers(t, res, out);
                assert(t.resources == t15.resources);
            }
        },
        WhatAmI::Peer => {
            if t.full_peer_net {
                if empty {
                    undeclare_peer_queryable(t, None, res, zid, out);
                } else {
                    let local = local_peer_qabl_info(t, res);
                    register_peer_queryable(t, None, res, local, zid, out);
                }
            } else if empty {
                propagate_forget_simple_queryable(t, res, out);
            } else {
                propagate_simple_queryable(t, res, None, out);
            }
        },
        WhatAmI::Client => {
            if empty {
                propagate_forget_simple_queryable(t, res, out);
            } else {
                propagate_simple_queryable(t, res, None, out);
            }
        },
    }
    let ghost t2 = *t;
    if clients.len() == 1 && !router_rem && !peer_rem {
        let f = clients[0];
        if f < t.faces.len() && told_exec(&t.faces[f].local_qabls, res).is_some() {
            let v = untell(&t.faces[f].local_qabls, res);
            t.set_local_qabls(f, v);
            out.push(Outbound { face: f, node_id: 0, body: Declaration::UndeclareQueryable { res } });
        }
    }
    proof {
        assert(t.faces@[face as int].remote_qabls == t1.faces@[face as int].remote_qabls);
        assert(t.resources@[res as int].session_ctxs == t1.resources@[res as int].session_ctxs);
        if last_queryable_gone(t0, *t, res as int) {
            assert(clients@.len() == 0);
            assert(!has_remote_router_qabls(t1, res as int));
            assert(!has_remote_peer_qabls(t1, res as int));
            if t0.whatami == WhatAmI::Peer && t0.full_peer_net {
                lemma_no_source_left(t1.resources@[res as int].peer_qabls@, zid);
            }
        }
    }
}

} // verus!

verus! {

/// Removes node `node`, which left the network of kind `net_type`, from
/// the router or peer scope of every resource; a router then withdraws or
/// re-announces its own router-scope aggregate.
pub fn queries_remove_node(t: &mut Tables, node: ZenohId, net_type: WhatAmI, out: &mut Vec<Outbound>)
    ensures
        final(t).faces@.len() == old(t).faces@.len(),
        final(t).resources@.len() == old(t).resources@.len(),
        net_type == WhatAmI::Router ==> forall|r: int|
            0 <= r < final(t).resources@.len() ==> #[trigger] info_of(final(t).resources@[r].router_qabls@, node) is None,
        net_type == WhatAmI::Peer && node != old(t).zid ==> forall|r: int|
            0 <= r < final(t).resources@.len() ==> #[trigger] info_of(final(t).resources@[r].peer_qabls@, node) is None,
        net_type == WhatAmI::Peer ==> forall|r: int|
            0 <= r < final(t).resources@.len() && #[trigger] info_of(old(t).resources@[r].peer_qabls@, node) is Some
                ==> peer_left(*old(t), *final(t), r, node),
{
    if net_type == WhatAmI::Client {
        return;
    }
    let ghost t0 = *t;
    let mut r: usize = 0;
    while r < t.resources.len()
        invariant
            r <= t.resources@.len(),
            t.resources@.len() == t0.resources@.len(),
            t.faces@.len() == t0.faces@.len(),
            t.zid == t0.zid,
            net_type != WhatAmI::Client,
            net_type == WhatAmI::Router ==> forall|q: int| 0 <= q < r ==> #[trigger] info_of(t.resources@[q].router_qabls@, node) is None,
            net_type == WhatAmI::Peer && node != t0.zid ==> forall|q: int| 0 <= q < r ==> #[trigger] info_of(t.resources@[q].peer_qabls@, node) is None,
            t.whatami == t0.whatami && t.full_peer_net == t0.full_peer_net,
            forall|q: int| r <= q < t0.resources@.len() ==> #[trigger] t.resources@[q] == t0.resources@[q],
            net_type == WhatAmI::Peer ==> forall|q: int|
                0 <= q < r && #[trigger] info_of(t0.resources@[q].peer_qabls@, node) is Some ==> peer_left(t0, *t, q, node),
        decreases t.resources@.len() - r,
    {
        let ghost before = *t;
        if net_type == WhatAmI::Router {
            if info_of_exec(&t.resources[r].router_qabls, node).is_some() {
                unregister_router_queryable(t, r, node, out);
            }
            assert forall|q: int| 0 <= q < r + 1 implies #[trigger] info_of(t.resources@[q].router_qabls@, node) is None by {
                if q < r {
                    assert(t.resources@[q] == before.resources@[q]);
                }
            }
        } else {
            if info_of_exec(&t.resources[r].peer_qabls, node).is_some() {
                peer_qabl_gone(t, None, r, node, false, out);
                assert(before.resources@[r as int] == t0.resources@[r as int]);
                assert(peer_left(t0, *t, r as int, node)) by {
                    assert(client_qabl_faces(before.resources@[r as int].session_ctxs@) == client_qabl_faces(t0.resources@[r as int].session_ctxs@));
                    assert(other_peer_qabls(before, r as int, node) == other_peer_qabls(t0, r as int, node));
                }
            }
            assert forall|q: int| 0 <= q < r + 1 && node != t0.zid implies #[trigger] info_of(t.resources@[q].peer_qabls@, node) is None by {
                if q < r {
                    assert(t.resources@[q] == before.resources@[q]);
                }
            }
            assert forall|q: int| 0 <= q < r + 1 && #[trigger] info_of(t0.resources@[q].peer_qabls@, node) is Some
                implies peer_left(t0, *t, q, node) by {
                if q < r {
                    assert(t.resources@[q] == before.resources@[q]);
                    assert(peer_left(t0, before, q, node));
                }
            }
            assert forall|q: int| r + 1 <= q < t0.resources@.len() implies #[trigger] t.resources@[q] == t0.resources@[q] by {
                assert(t.resources@[q] == before.resources@[q]);
            }
        }
        r = r + 1;
    }
}

/// The announcement of source `z` in the queryable scope of kind
/// `net_type` of resource `res`.
pub open spec fn scope_info(t: Tables, res: int, z: ZenohId, net_type: WhatAmI) -> Option<QueryableInfo> {
    if net_type == WhatAmI::Router {
        info_of(t.resources@[res].router_qabls@, z)
    } else {
        info_of(t.resources@[res].peer_qabls@, z)
    }
}

/// What a tree change sends for source `sid`, whose new children are
/// `children`, over the resources of `index`.
pub open spec fn qtree_res_msgs(t: Tables, net: Network, children: Seq<usize>, sid: int, index: Seq<usize>, net_type: WhatAmI) -> Seq<Outbound>
    decreases index.len(),
{
    if index.len() == 0 {
        Seq::empty()
    } else {
        let rest = qtree_res_msgs(t, net, children, sid, index.drop_last(), net_type);
        let res = index.last();
        if (res as int) < t.resources@.len() {
            match scope_info(t, res as int, net.nodes@[sid].zid, net_type) {
                Some(info) => rest + sourced_msgs(t, net, children, None, Declaration::DeclareQueryable { res, info }, sid as u16),
                None => rest,
            }
        } else {
            rest
        }
    }
}

/// What a tree change sends for queryables, source by source.
pub open spec fn qtree_msgs(t: Tables, net: Network, new_children: Seq<Vec<usize>>, index: Seq<usize>, net_type: WhatAmI) -> Seq<Outbound>
    decreases new_children.len(),
{
    if new_children.len() == 0 {
        Seq::empty()
    } else {
        let sid = new_children.len() - 1;
        let rest = qtree_msgs(t, net, new_children.drop_last(), index, net_type);
        if new_children.last()@.len() > 0 && sid < net.nodes@.len() {
            rest + qtree_res_msgs(t, net, new_children.last()@, sid, index, net_type)
        } else {
            rest
        }
    }
}

/// The global index of the queryable scope of kind `net_type`.
pub open spec fn qabl_index(t: Tables, net_type: WhatAmI) -> Seq<usize> {
    if net_type == WhatAmI::Router { t.router_qabls@ } else { t.peer_qabls@ }
}

/// After the spanning trees of the network of kind `net_type` changed,
/// sends each router- or peer-scope queryable announced by the source of a
/// tree to the new children of that source in its tree.
pub fn queries_tree_change(t: &Tables, new_children: &Vec<Vec<usize>>, net_type: WhatAmI, out: &mut Vec<Outbound>)
    ensures
        final(out)@ == old(out)@ + match net_of(*t, net_type) {
            Some(net) => qtree_msgs(*t, net, new_children@, qabl_index(*t, net_type), net_type),
            None => Seq::empty(),
        },
{
    let ghost out0 = out@;
    let net = match net_type {
        WhatAmI::Router => &t.routers_net,
        _ => &t.peers_net,
    };
    let net = match net {
        Some(n) => n,
        None => {
            assert(out@ =~= out0 + Seq::<Outbound>::empty());
            return;
        },
    };
    let index = match net_type {
        WhatAmI::Router => &t.router_qabls,
        _ => &t.peer_qabls,
    };
    let mut sid: usize = 0;
    while sid < new_children.len()
        invariant
            sid <= new_children@.len(),
            net_of(*t, net_type) == Some(*net),
            index@ == qabl_index(*t, net_type),
            out@ == out0 + qtree_msgs(*t, *net, new_children@.subrange(0, sid as int), index@, net_type),
        decreases new_children@.len() - sid,
    {
        let children = &new_children[sid];
        let ghost out_s = out@;
        assert(new_children@.subrange(0, sid + 1).drop_last() =~= new_children@.subrange(0, sid as int));
        assert(new_children@.subrange(0, sid + 1).last() == *children);
        if children.len() > 0 && sid < net.nodes.len() {
            let tree_id = net.nodes[sid].zid;
            let mut k: usize = 0;
            while k < index.len()
                invariant
                    k <= index@.len(),
                    sid < net.nodes@.len(),
                    tree_id == net.nodes@[sid as int].zid,
                    out@ == out_s + qtree_res_msgs(*t, *net, children@, sid as int, index@.subrange(0, k as int), net_type),
                decreases index@.len() - k,
            {
                let res = index[k];
                assert(index@.subrange(0, k + 1).drop_last() =~= index@.subrange(0, k as int));
                if res < t.resources.len() {
                    let announced = match net_type {
                        WhatAmI::Router => info_of_exec(&t.resources[res].router_qabls, tree_id),
                        _ => info_of_exec(&t.resources[res].peer_qabls, tree_id),
                    };
                    if let Some(info) = announced {
                        crate::pubsub::send_sourced_to_net_children(t, net, children, None, Declaration::DeclareQueryable { res, info }, sid as u16, out);
                    }
                }
                k = k + 1;
                assert(out@ =~= out_s + qtree_res_msgs(*t, *net, children@, sid as int, index@.subrange(0, k as int), net_type));
            }
            assert(index@.subrange(0, k as int) =~= index@);
            assert(out@ =~= out0 + qtree_msgs(*t, *net, new_children@.subrange(0, sid + 1), index@, net_type));
        } else {
            assert(out@ =~= out0 + qtree_msgs(*t, *net, new_children@.subrange(0, sid + 1), index@, net_type));
        }
        sid = sid + 1;
    }
    assert(new_children@.subrange(0, sid as int) =~= new_children@);
}

} // verus!

verus! {

/// Tells face `face` the current aggregate for `res`.
fn tell_face(t: &mut Tables, face: usize, res: usize, out: &mut Vec<Outbound>)
    requires
        face < old(t).faces@.len(),
        res < old(t).resources@.len(),
    ensures
        same_but_local_qabls(*old(t), *final(t)),
        forall|f: int| 0 <= f < old(t).faces@.len() && f != face ==> #[trigger] final(t).faces@[f] == old(t).faces@[f],
        told(final(t).faces@[face as int].local_qabls@, res) == Some(local_info(*old(t), res as int, face as int)),
        forall|x: usize| x != res ==> told(final(t).faces@[face as int].local_qabls@, x) == told(old(t).faces@[face as int].local_qabls@, x),
        final(out)@ == old(out)@.push(
            (Outbound { face, node_id: 0, body: Declaration::DeclareQueryable { res, info: local_info(*old(t), res as int, face as int) } }),
        ),
{
    let info = local_qabl_info(t, res, face);
    let v = tell(&t.faces[face].local_qabls, res, info);
    t.set_local_qabls(face, v);
    out.push(Outbound { face, node_id: 0, body: Declaration::DeclareQueryable { res, info } });
}

/// Some face holding a client queryable on `res` is a client, or a peer
/// that `d` reaches only through this node.
pub open spec fn qabl_bridged_any(t: Tables, res: int, d: int) -> bool {
    exists|k: int|
        0 <= k < t.resources@[res].session_ctxs@.len() && {
            let s = #[trigger] t.resources@[res].session_ctxs@[k];
            &&& (s.face as int) < t.faces@.len()
            &&& s.qabl is Some
            &&& (t.faces@[s.face as int].whatami == WhatAmI::Client || (t.faces@[s.face as int].whatami
                == WhatAmI::Peer && brokering(t.peers_net, t.faces@[s.face as int].zid, t.faces@[d].zid)))
        }
}

fn is_qabl_bridged_any(t: &Tables, res: usize, d: usize) -> (r: bool)
    requires
        res < t.resources@.len(),
        d < t.faces@.len(),
    ensures
        r == qabl_bridged_any(*t, res as int, d as int),
{
    let ctxs = &t.resources[res].session_ctxs;
    let mut k: usize = 0;
    while k < ctxs.len()
        invariant
            k <= ctxs@.len(),
            d < t.faces@.len(),
            ctxs@ == t.resources@[res as int].session_ctxs@,
            forall|j: int| 0 <= j < k ==> !({
                let s = #[trigger] ctxs@[j];
                &&& (s.face as int) < t.faces@.len()
                &&& s.qabl is Some
                &&& (t.faces@[s.face as int].whatami == WhatAmI::Client || (t.faces@[s.face as int].whatami
                    == WhatAmI::Peer && brokering(t.peers_net, t.faces@[s.face as int].zid, t.faces@[d as int].zid)))
            }),
        decreases ctxs@.len() - k,
    {
        let s = ctxs[k];
        if s.face < t.faces.len() && s.qabl.is_some() {
            let role = t.faces[s.face].whatami;
            if role == WhatAmI::Client || (role == WhatAmI::Peer && t.failover_brokering(t.faces[s.face].zid, t.faces[d].zid)) {
                assert(ctxs@[k as int] == s);
                return true;
            }
        }
        k = k + 1;
    }
    false
}

/// Whether a new face `face` is told of resource `res` of the global
/// queryable index: on a router, a client face of every one, a peer face
/// of a partial mesh of those another router announced or that a client,
/// or a peer that needs this node as a broker, declared; on a peer of a
/// full mesh, a client face of every one.
pub open spec fn qindex_sends(t: Tables, face: int, res: usize) -> bool {
    let role = t.faces@[face].whatami;
    &&& (res as int) < t.resources@.len()
    &&& if t.whatami == WhatAmI::Router {
        role == WhatAmI::Client || (role == WhatAmI::Peer && !t.full_peer_net
            && (has_remote_router_qabls(t, res as int) || qabl_bridged_any(t, res as int, face)))
    } else {
        role == WhatAmI::Client
    }
}

/// The resources of `idx` that a new face is told of, in order.
pub open spec fn qindex_heard(t: Tables, face: int, idx: Seq<usize>) -> Seq<usize>
    decreases idx.len(),
{
    if idx.len() == 0 {
        Seq::empty()
    } else if qindex_sends(t, face, idx.last()) {
        qindex_heard(t, face, idx.drop_last()).push(idx.last())
    } else {
        qindex_heard(t, face, idx.drop_last())
    }
}

/// The declarations that tell face `face` the aggregate of each resource
/// of `rs`.
pub open spec fn qheard_msgs(t: Tables, face: int, rs: Seq<usize>) -> Seq<Outbound> {
    rs.map_values(|r: usize| Outbound {
        face: face as usize,
        node_id: 0,
        body: Declaration::DeclareQueryable { res: r, info: local_info(t, r as int, face) },
    })
}

/// The global queryable index a new face is told from.
pub open spec fn new_face_qindex(t: Tables) -> Seq<usize> {
    if t.whatami == WhatAmI::Router { t.router_qabls@ } else { t.peer_qabls@ }
}

/// Tells a new face `face` of the queryables it should know of: on a router
/// or a peer of a full mesh, one declaration carrying the aggregate for
/// each resource of the global index it is told of (see `qindex_sends`);
/// otherwise every queryable another face declared is propagated again.
/// A face that does not exist makes the call void.
pub fn queries_new_face(t: &mut Tables, face: usize, out: &mut Vec<Outbound>)
    ensures
        same_but_local_qabls(*old(t), *final(t)),
        face < old(t).faces@.len() && (old(t).whatami == WhatAmI::Router || (old(t).whatami == WhatAmI::Peer && old(t).full_peer_net)) ==> {
            let heard = qindex_heard(*old(t), face as int, new_face_qindex(*old(t)));
            &&& forall|f: int| 0 <= f < old(t).faces@.len() && f != face ==> #[trigger] final(t).faces@[f] == old(t).faces@[f]
            &&& forall|x: usize| #[trigger] told(final(t).faces@[face as int].local_qabls@, x) == if heard.contains(x) {
                Some(local_info(*old(t), x as int, face as int))
            } else {
                told(old(t).faces@[face as int].local_qabls@, x)
            }
            &&& final(out)@ == old(out)@ + qheard_msgs(*old(t), face as int, heard)
        },
        face < old(t).faces@.len() && !(old(t).whatami == WhatAmI::Router || (old(t).whatami == WhatAmI::Peer && old(t).full_peer_net))
            && old(t).faces@[face as int].whatami == WhatAmI::Client ==> forall|g: int, x: usize|
            0 <= g < old(t).faces@.len() && g != face && (x as int) < old(t).resources@.len()
                && #[trigger] old(t).faces@[g].remote_qabls@.contains(x)
                ==> told(final(t).faces@[face as int].local_qabls@, x) == Some(local_info(*final(t), x as int, face as int)),
{
    if face >= t.faces.len() {
        return;
    }
    let ghost t0 = *t;
    let ghost out0 = out@;
    let role = t.faces[face].whatami;
    if t.whatami == WhatAmI::Router || (t.whatami == WhatAmI::Peer && t.full_peer_net) {
        let index = if t.whatami == WhatAmI::Router { copy_indices(&t.router_qabls) } else { copy_indices(&t.peer_qabls) };
        let mut k: usize = 0;
        while k < index.len()
            invariant
                k <= index@.len(),
                face < t.faces@.len(),
                role == t0.faces@[face as int].whatami,
                index@ == new_face_qindex(t0),
                same_but_local_qabls(t0, *t),
                forall|f: int| 0 <= f < t0.faces@.len() && f != face ==> #[trigger] t.faces@[f] == t0.faces@[f],
                forall|x: usize| #[trigger] told(t.faces@[face as int].local_qabls@, x) == if qindex_heard(t0, face as int, index@.subrange(0, k as int)).contains(x) {
                    Some(local_info(t0, x as int, face as int))
                } else {
                    told(t0.faces@[face as int].local_qabls@, x)
                },
                out@ == out0 + qheard_msgs(t0, face as int, qindex_heard(t0, face as int, index@.subrange(0, k as int))),
            decreases index@.len() - k,
        {
            let res = index[k];
            assert(index@.subrange(0, k + 1).drop_last() =~= index@.subrange(0, k as int));
            let ghost h = qindex_heard(t0, face as int, index@.subrange(0, k as int));
            let ghost before = *t;
            proof {
                assert(before.resources == t0.resources);
                assert forall|j: int| 0 <= j < t0.faces@.len() implies (#[trigger] before.faces@[j]).whatami == t0.faces@[j].whatami
                    && before.faces@[j].zid == t0.faces@[j].zid by {
                    assert(before.faces@[j] == (FaceState { local_qabls: before.faces@[j].local_qabls, ..t0.faces@[j] }));
                }
            }
            let send = if res < t.resources.len() {
                if role == WhatAmI::Client {
                    true
                } else if t.whatami == WhatAmI::Router && role == WhatAmI::Peer && !t.full_peer_net {
                    any_other_source(&t.resources[res].router_qabls, t.zid) || is_qabl_bridged_any(t, res, face)
                } else {
                    false
                }
            } else {
                false
            };
            proof {
                if (res as int) < t0.resources@.len() {
                    assert(qabl_bridged_any(before, res as int, face as int) == qabl_bridged_any(t0, res as int, face as int));
                }
            }
            assert(send == qindex_sends(t0, face as int, res));
            if send {
                proof { lemma_local_info_frame(t0, before, res as int, face as int); }
                tell_face(t, face, res, out);
                proof {
                    assert(qheard_msgs(t0, face as int, h.push(res)) =~= qheard_msgs(t0, face as int, h).push(Outbound {
                        face,
                        node_id: 0,
                        body: Declaration::DeclareQueryable { res, info: local_info(t0, res as int, face as int) },
                    }));
                    assert forall|x: usize| h.push(res).contains(x) <==> h.contains(x) || x == res by {
                        if h.push(res).contains(x) && x != res {
                            let j = choose|j: int| 0 <= j < h.push(res).len() && h.push(res)[j] == x;
                            assert(h[j] == x);
                        }
                        if h.contains(x) {
                            let j = choose|j: int| 0 <= j < h.len() && h[j] == x;
                            assert(h.push(res)[j] == x);
                        }
                        if x == res {
                            assert(h.push(res)[h.len() as int] == x);
                        }
                    }
                    assert forall|f: int| 0 <= f < t0.faces@.len() implies #[trigger] t.faces@[f] == (FaceState {
                        local_qabls: t.faces@[f].local_qabls,
                        ..t0.faces@[f]
                    }) by {
                        assert(before.faces@[f] == (FaceState { local_qabls: before.faces@[f].local_qabls, ..t0.faces@[f] }));
                    }
                }
            }
            k = k + 1;
        }
        assert(index@.subrange(0, k as int) =~= index@);
    } else {
        let client_face = role == WhatAmI::Client;
        let mut src: usize = 0;
        while src < t.faces.len()
            invariant
                face < t.faces@.len(),
                same_but_local_qabls(t0, *t),
                client_face == (t0.faces@[face as int].whatami == WhatAmI::Client),
                client_face ==> forall|g: int, x: usize|
                    0 <= g < src && g != face && (x as int) < t0.resources@.len() && #[trigger] t0.faces@[g].remote_qabls@.contains(x)
                        ==> told(t.faces@[face as int].local_qabls@, x) == Some(local_info(t0, x as int, face as int)),
            decreases t.faces@.len() - src,
        {
            assert(t.faces@[src as int] == (FaceState { local_qabls: t.faces@[src as int].local_qabls, ..t0.faces@[src as int] }));
            let qabls = copy_indices(&t.faces[src].remote_qabls);
            let mut k: usize = 0;
            while k < qabls.len()
                invariant
                    src < t.faces@.len(),
                    face < t.faces@.len(),
                    qabls@ == t0.faces@[src as int].remote_qabls@,
                    same_but_local_qabls(t0, *t),
                    client_face == (t0.faces@[face as int].whatami == WhatAmI::Client),
                    client_face ==> forall|g: int, x: usize|
                        0 <= g < src && g != face && (x as int) < t0.resources@.len() && #[trigger] t0.faces@[g].remote_qabls@.contains(x)
                            ==> told(t.faces@[face as int].local_qabls@, x) == Some(local_info(t0, x as int, face as int)),
                    client_face && src != face ==> forall|j: int|
                        0 <= j < k && (qabls@[j] as int) < t0.resources@.len()
                            ==> told(t.faces@[face as int].local_qabls@, #[trigger] qabls@[j]) == Some(local_info(t0, qabls@[j] as int, face as int)),
                decreases qabls@.len() - k,
            {
                let res = qabls[k];
                if res < t.resources.len() {
                    let ghost before = *t;
                    proof {
                        lemma_local_info_frame(t0, before, res as int, face as int);
                        assert(before.faces@[face as int] == (FaceState { local_qabls: before.faces@[face as int].local_qabls, ..t0.faces@[face as int] }));
                        assert(before.faces@[src as int] == (FaceState { local_qabls: before.faces@[src as int].local_qabls, ..t0.faces@[src as int] }));
                    }
                    propagate_simple_queryable(t, res, Some(src), out);
                    proof {
                        assert forall|g: int| 0 <= g < t0.faces@.len() implies #[trigger] t.faces@[g] == (FaceState {
                            local_qabls: t.faces@[g].local_qabls,
                            ..t0.faces@[g]
                        }) by {
                            assert(before.faces@[g] == (FaceState { local_qabls: before.faces@[g].local_qabls, ..t0.faces@[g] }));
                        }
                        if client_face && src != face {
                            assert(qabl_allowed(before, Some(src), face as int));
                            assert(told(t.faces@[face as int].local_qabls@, res) == Some(local_info(t0, res as int, face as int)));
                        }
                    }
                }
                k = k + 1;
            }
            proof {
                assert forall|g: int, x: usize|
                    client_face && 0 <= g < src + 1 && g != face && (x as int) < t0.resources@.len() && #[trigger] t0.faces@[g].remote_qabls@.contains(x)
                        implies told(t.faces@[face as int].local_qabls@, x) == Some(local_info(t0, x as int, face as int)) by {
                    if g == src as int {
                        let j = choose|j: int| 0 <= j < qabls@.len() && qabls@[j] == x;
                    }
                }
            }
            src = src + 1;
        }
        proof {
            assert forall|g: int, x: usize|
                client_face && 0 <= g < t0.faces@.len() && g != face && (x as int) < t0.resources@.len() && #[trigger] t0.faces@[g].remote_qabls@.contains(x)
                    implies told(t.faces@[face as int].local_qabls@, x) == Some(local_info(*t, x as int, face as int)) by {
                lemma_local_info_frame(t0, *t, x as int, face as int);
            }
        }
    }
}

} // verus!

verus! {

/// Some peer face with a client queryable on `res` is not among `links`.
pub open spec fn qabl_outside(t: Tables, res: int, links: Seq<ZenohId>) -> bool {
    exists|k: int|
        0 <= k < t.resources@[res].session_ctxs@.len() && {
            let c = #[trigger] t.resources@[res].session_ctxs@[k];
            &&& (c.face as int) < t.faces@.len()
            &&& t.faces@[c.face as int].whatami == WhatAmI::Peer
            &&& c.qabl is Some
            &&& crate::tables::brokering_to(links, t.faces@[c.face as int].zid)
        }
}

fn peer_qabl_outside(t: &Tables, res: usize, links: &Vec<ZenohId>) -> (r: bool)
    requires
        res < t.resources@.len(),
    ensures
        r == qabl_outside(*t, res as int, links@),
{
    let ctxs = &t.resources[res].session_ctxs;
    let mut k: usize = 0;
    while k < ctxs.len()
        invariant
            k <= ctxs@.len(),
            ctxs@ == t.resources@[res as int].session_ctxs@,
            forall|j: int| 0 <= j < k ==> !({
                let c = #[trigger] ctxs@[j];
                &&& (c.face as int) < t.faces@.len()
                &&& t.faces@[c.face as int].whatami == WhatAmI::Peer
                &&& c.qabl is Some
                &&& crate::tables::brokering_to(links@, t.faces@[c.face as int].zid)
            }),
        decreases ctxs@.len() - k,
    {
        let c = ctxs[k];
        if c.face < t.faces.len() && t.faces[c.face].whatami == WhatAmI::Peer && c.qabl.is_some()
            && crate::tables::failover_brokering_to(links, t.faces[c.face].zid) {
            assert(ctxs@[k as int] == c);
            return true;
        }
        k = k + 1;
    }
    false
}

/// Some client face holds a client queryable on `res`.
pub open spec fn client_qabl_any(t: Tables, res: int) -> bool {
    exists|k: int|
        0 <= k < t.resources@[res].session_ctxs@.len() && {
            let c = #[trigger] t.resources@[res].session_ctxs@[k];
            &&& (c.face as int) < t.faces@.len()
            &&& t.faces@[c.face as int].whatami == WhatAmI::Client
            &&& c.qabl is Some
        }
}

fn has_client_qabl(t: &Tables, res: usize) -> (r: bool)
    requires
        res < t.resources@.len(),
    ensures
        r == client_qabl_any(*t, res as int),
{
    let ctxs = &t.resources[res].session_ctxs;
    let mut k: usize = 0;
    while k < ctxs.len()
        invariant
            k <= ctxs@.len(),
            ctxs@ == t.resources@[res as int].session_ctxs@,
            forall|j: int| 0 <= j < k ==> !({
                let c = #[trigger] ctxs@[j];
                &&& (c.face as int) < t.faces@.len()
                &&& t.faces@[c.face as int].whatami == WhatAmI::Client
                &&& c.qabl is Some
            }),
        decreases ctxs@.len() - k,
    {
        let c = ctxs[k];
        if c.face < t.faces.len() && t.faces[c.face].whatami == WhatAmI::Client && c.qabl.is_some() {
            assert(ctxs@[k as int] == c);
            return true;
        }
        k = k + 1;
    }
    false
}

/// A link-state change of peer face `src` revisits the pair of resource
/// `x` and face `f`: `x` is a queryable `src` declared that no other router
/// and no client provides, and `f` is another peer face with a session
/// context on `x`.
pub open spec fn qls_visits(t: Tables, src: int, x: usize, f: int) -> bool {
    &&& (x as int) < t.resources@.len()
    &&& t.faces@[src].remote_qabls@.contains(x)
    &&& !has_remote_router_qabls(t, x as int)
    &&& !client_qabl_any(t, x as int)
    &&& 0 <= f < t.faces@.len()
    &&& t.faces@[f].whatami == WhatAmI::Peer
    &&& t.faces@[f].zid != t.faces@[src].zid
    &&& crate::pubsub::has_ctx(t, x as int, f)
}

/// Face `f` is told to forget `x`: the new links of the peer reach `f`
/// directly, and some peer with a queryable on `x` is outside the links of
/// `f`.
pub open spec fn qls_forget(t: Tables, links: Seq<ZenohId>, x: usize, f: int) -> bool {
    !crate::tables::brokering_to(links, t.faces@[f].zid) && qabl_outside(t, x as int, crate::pubsub::links_of(t, t.faces@[f].zid))
}

/// What face `f` has been told of `x` once the change is handled.
pub open spec fn qls_target(t: Tables, links: Seq<ZenohId>, x: usize, f: int) -> Option<QueryableInfo> {
    let had = told(t.faces@[f].local_qabls@, x);
    if had is Some {
        if qls_forget(t, links, x, f) { None } else { had }
    } else if crate::tables::brokering_to(links, t.faces@[f].zid) {
        Some(local_info(t, x as int, f))
    } else {
        None
    }
}

/// The messages a link-state change sends about queryable `x` to faces
/// `0..n`; nothing when `x` was already revisited (`seen`).
pub open spec fn qls_face_msgs(t: Tables, links: Seq<ZenohId>, src: int, x: usize, n: int, seen: bool) -> Seq<Outbound>
    decreases n,
{
    if n <= 0 {
        Seq::empty()
    } else {
        let rest = qls_face_msgs(t, links, src, x, n - 1, seen);
        let f = n - 1;
        let had = told(t.faces@[f].local_qabls@, x) is Some;
        if !seen && qls_visits(t, src, x, f) {
            if had && qls_forget(t, links, x, f) {
                rest.push(Outbound { face: f as usize, node_id: 0, body: Declaration::UndeclareQueryable { res: x } })
            } else if !had && crate::tables::brokering_to(links, t.faces@[f].zid) {
                rest.push(Outbound { face: f as usize, node_id: 0, body: Declaration::DeclareQueryable { res: x, info: local_info(t, x as int, f) } })
            } else {
                rest
            }
        } else {
            rest
        }
    }
}

/// The messages a link-state change sends about queryables, resource by
/// resource of `xs` and face by face.
pub open spec fn qls_msgs(t: Tables, links: Seq<ZenohId>, src: int, xs: Seq<usize>) -> Seq<Outbound>
    decreases xs.len(),
{
    if xs.len() == 0 {
        Seq::empty()
    } else {
        qls_msgs(t, links, src, xs.drop_last()) + qls_face_msgs(t, links, src, xs.last(), t.faces@.len() as int,
            xs.drop_last().contains(xs.last()))
    }
}

proof fn lemma_prefix_step_q(l: Seq<usize>, k: int)
    requires
        0 <= k < l.len(),
    ensures
        forall|x: usize| #[trigger] l.subrange(0, k + 1).contains(x) <==> l.subrange(0, k).contains(x) || x == l[k],
{
    let pre = l.subrange(0, k);
    let next = l.subrange(0, k + 1);
    assert forall|x: usize| next.contains(x) <==> pre.contains(x) || x == l[k] by {
        if next.contains(x) {
            let j = choose|j: int| 0 <= j < next.len() && next[j] == x;
            if j < k {
                assert(pre[j] == x);
            }
        }
        if pre.contains(x) {
            let j = choose|j: int| 0 <= j < pre.len() && pre[j] == x;
            assert(next[j] == x);
        }
        if x == l[k] {
            assert(next[k] == x);
        }
    }
}

/// When the links of peer `zid` change on a router, revisits each queryable
/// that peer declared and that no other router and no client provides: a
/// peer face that was told of it is told to forget it once `zid` reaches
/// it directly and some peer with a queryable on it lies outside that
/// face's links; a peer face that was not told of it is told the aggregate
/// once `zid` no longer reaches it.
pub fn queries_linkstate_change(t: &mut Tables, zid: ZenohId, links: &Vec<ZenohId>, out: &mut Vec<Outbound>)
    ensures
        same_but_local_qabls(*old(t), *final(t)),
        ({
            let s = crate::pubsub::find_face(old(t).faces@, zid);
            let active = s >= 0 && old(t).whatami == WhatAmI::Router && old(t).faces@[s].whatami == WhatAmI::Peer;
            &&& forall|f: int, x: usize|
                0 <= f < old(t).faces@.len() ==> #[trigger] told(final(t).faces@[f].local_qabls@, x) == if active
                    && qls_visits(*old(t), s, x, f) {
                    qls_target(*old(t), links@, x, f)
                } else {
                    told(old(t).faces@[f].local_qabls@, x)
                }
            &&& final(out)@ == old(out)@ + if active {
                qls_msgs(*old(t), links@, s, old(t).faces@[s].remote_qabls@)
            } else {
                Seq::empty()
            }
        }),
{
    let ghost t0 = *t;
    let ghost out0 = out@;
    let src = match crate::pubsub::get_face(t, zid) {
        Some(s) => s,
        None => {
            assert(out@ =~= out0 + Seq::<Outbound>::empty());
            return;
        },
    };
    if t.whatami != WhatAmI::Router || t.faces[src].whatami != WhatAmI::Peer {
        assert(out@ =~= out0 + Seq::<Outbound>::empty());
        return;
    }
    let qabls = copy_indices(&t.faces[src].remote_qabls);
    let n = t.faces.len();
    let mut k: usize = 0;
    while k < qabls.len()
        invariant
            k <= qabls@.len(),
            src < t.faces@.len(),
            n == t0.faces@.len(),
            qabls@ == t0.faces@[src as int].remote_qabls@,
            same_but_local_qabls(t0, *t),
            forall|f: int, x: usize|
                0 <= f < t0.faces@.len() ==> #[trigger] told(t.faces@[f].local_qabls@, x) == if qls_visits(t0, src as int, x, f)
                    && qabls@.subrange(0, k as int).contains(x) {
                    qls_target(t0, links@, x, f)
                } else {
                    told(t0.faces@[f].local_qabls@, x)
                },
            out@ == out0 + qls_msgs(t0, links@, src as int, qabls@.subrange(0, k as int)),
        decreases qabls@.len() - k,
    {
        let res = qabls[k];
        proof { lemma_prefix_step_q(qabls@, k as int); }
        let ghost pre_k = qabls@.subrange(0, k as int);
        let ghost seen = pre_k.contains(res);
        let ghost out_k = out@;
        assert(qabls@.subrange(0, k + 1).drop_last() =~= pre_k);
        proof {
            assert forall|j: int| 0 <= j < t0.faces@.len() implies (#[trigger] t.faces@[j]).whatami == t0.faces@[j].whatami
                && t.faces@[j].zid == t0.faces@[j].zid by {
                assert(t.faces@[j] == (FaceState { local_qabls: t.faces@[j].local_qabls, ..t0.faces@[j] }));
            }
            if (res as int) < t0.resources@.len() {
                assert(client_qabl_any(*t, res as int) == client_qabl_any(t0, res as int));
            }
        }
        let eligible = res < t.resources.len() && !remote_router_qabls(t, res) && !has_client_qabl(t, res);
        assert(t0.faces@[src as int].remote_qabls@.contains(res)) by {
            assert(qabls@[k as int] == res);
        }
        let mut f: usize = 0;
        while f < n
            invariant
                f <= n,
                n == t0.faces@.len(),
                src < t.faces@.len(),
                seen == pre_k.contains(res),
                eligible == ((res as int) < t0.resources@.len() && !has_remote_router_qabls(t0, res as int) && !client_qabl_any(t0, res as int)),
                t0.faces@[src as int].remote_qabls@.contains(res),
                same_but_local_qabls(t0, *t),
                forall|g: int, x: usize|
                    0 <= g < t0.faces@.len() ==> #[trigger] told(t.faces@[g].local_qabls@, x) == if qls_visits(t0, src as int, x, g)
                        && (pre_k.contains(x) || (x == res && g < f)) {
                        qls_target(t0, links@, x, g)
                    } else {
                        told(t0.faces@[g].local_qabls@, x)
                    },
                out@ == out_k + qls_face_msgs(t0, links@, src as int, res, f as int, seen),
            decreases n - f,
        {
            let ghost before = *t;
            proof {
                assert forall|j: int| 0 <= j < t0.faces@.len() implies (#[trigger] before.faces@[j]).whatami == t0.faces@[j].whatami
                    && before.faces@[j].zid == t0.faces@[j].zid by {
                    assert(before.faces@[j] == (FaceState { local_qabls: before.faces@[j].local_qabls, ..t0.faces@[j] }));
                }
            }
            let visit = eligible && t.faces[f].whatami == WhatAmI::Peer && t.faces[src].zid != t.faces[f].zid && crate::pubsub::ctx_of(t, res, f);
            assert(visit == qls_visits(t0, src as int, res, f as int));
            let ghost h0 = told(t0.faces@[f as int].local_qabls@, res);
            let ghost hb = told(before.faces@[f as int].local_qabls@, res);
            let ghost tgt = qls_target(t0, links@, res, f as int);
            let ghost out_f = out@;
            assert(told(before.faces@[f as int].local_qabls@, res) == if qls_visits(t0, src as int, res, f as int)
                && (pre_k.contains(res) || (res == res && (f as int) < (f as int))) {
                qls_target(t0, links@, res, f as int)
            } else {
                told(t0.faces@[f as int].local_qabls@, res)
            });
            assert(hb == if visit && seen { tgt } else { h0 });
            if visit {
                let fz = t.faces[f].zid;
                let had = told_exec(&t.faces[f].local_qabls, res).is_some();
                if had {
                    let forget = if !crate::tables::failover_brokering_to(links, fz) {
                        let l = crate::pubsub::peer_links(t, fz);
                        peer_qabl_outside(t, res, &l)
                    } else {
                        false
                    };
                    proof {
                        assert(qabl_outside(before, res as int, crate::pubsub::links_of(t0, fz)) == qabl_outside(t0, res as int, crate::pubsub::links_of(t0, fz)));
                    }
                    assert(forget == qls_forget(t0, links@, res, f as int));
                    if forget {
                        let v = untell(&t.faces[f].local_qabls, res);
                        t.set_local_qabls(f, v);
                        out.push(Outbound { face: f, node_id: 0, body: Declaration::UndeclareQueryable { res } });
                    }
                } else if crate::tables::failover_brokering_to(links, fz) {
                    proof { lemma_local_info_frame(t0, before, res as int, f as int); }
                    tell_face(t, f, res, out);
                }
            }
            proof {
                assert forall|g: int| 0 <= g < t0.faces@.len() implies #[trigger] t.faces@[g] == (FaceState {
                    local_qabls: t.faces@[g].local_qabls,
                    ..t0.faces@[g]
                }) by {
                    assert(before.faces@[g] == (FaceState { local_qabls: before.faces@[g].local_qabls, ..t0.faces@[g] }));
                }
                if visit {
                    assert(told(t.faces@[f as int].local_qabls@, res) == tgt);
                    if seen {
                        assert(out@ == out_f);
                    }
                } else {
                    assert(told(t.faces@[f as int].local_qabls@, res) == hb);
                    assert(out@ == out_f);
                }
                assert forall|g: int, x: usize|
                    0 <= g < t0.faces@.len() && (g != f || x != res)
                        implies #[trigger] told(t.faces@[g].local_qabls@, x) == told(before.faces@[g].local_qabls@, x) by {
                    if g != f as int {
                        assert(t.faces@[g] == before.faces@[g]);
                    }
                }
            }
            f = f + 1;
        }
        proof {
            assert(qabls@.subrange(0, k + 1).last() == res);
        }
        k = k + 1;
    }
    assert(qabls@.subrange(0, k as int) =~= qabls@);
}

} // verus!
