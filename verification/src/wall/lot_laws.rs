//! What updating the connections of a lot keeps: walls are connected in pairs,
//! both sides agree on where they meet, and no wall is listed twice.
use vstd::prelude::*;
use crate::wall::connections::{link, ConnView, PointKind, Wall, WallConnection, first_index, lemma_first_index};
use crate::wall::lot::{cleanup_all, cleanup_one, lot_index, lemma_lot_index, lemma_same_walls_index, same_walls, scan, unlink_all, unlink_one, update_spec, with_conns, LotWallView};

verus! {

/// `s` holds a connection to the wall `entity` at its end point `kind`.
pub open spec fn has_link(s: Seq<WallConnection>, entity: u64, kind: PointKind) -> bool {
    exists|x: int| 0 <= x < s.len() && #[trigger] s[x].wall_entity == entity && s[x].point_kind == kind
}

/// The wall `w` is connected at its point `k` to the point `kind` of the wall `entity`.
pub open spec fn linked(w: LotWallView, k: PointKind, entity: u64, kind: PointKind) -> bool {
    has_link(w.conns.at(k), entity, kind)
}

/// No two walls of the lot share an entity.
pub open spec fn entities_unique(lot: Seq<LotWallView>) -> bool {
    forall|a: int, b: int| 0 <= a < b < lot.len() ==> lot[a].entity != lot[b].entity
}

/// Every connection names another wall of the lot.
pub open spec fn targets_valid(lot: Seq<LotWallView>) -> bool {
    forall|i: int, k: PointKind, x: int|
        0 <= i < lot.len() && 0 <= x < lot[i].conns.at(k).len() ==> {
            let e = #[trigger] lot[i].conns.at(k)[x].wall_entity;
            e != lot[i].entity && lot_index(lot, e) is Some
        }
}

/// No wall is named twice among the connections of `c`.
pub open spec fn single_links(c: ConnView) -> bool {
    forall|k1: PointKind, x1: int, k2: PointKind, x2: int|
        0 <= x1 < c.at(k1).len() && 0 <= x2 < c.at(k2).len() && (k1 != k2 || x1 != x2)
            ==> #[trigger] c.at(k1)[x1].wall_entity != #[trigger] c.at(k2)[x2].wall_entity
}

/// Both walls of every connection agree on it.
pub open spec fn symmetric(lot: Seq<LotWallView>) -> bool {
    forall|i: int, j: int, ki: PointKind, kj: PointKind|
        0 <= i < lot.len() && 0 <= j < lot.len() ==> (#[trigger] linked(lot[i], ki, lot[j].entity, kj)
            <==> #[trigger] linked(lot[j], kj, lot[i].entity, ki))
}

/// The connections of a lot are well formed.
pub open spec fn connections_wf(lot: Seq<LotWallView>) -> bool {
    &&& entities_unique(lot)
    &&& targets_valid(lot)
    &&& forall|i: int| 0 <= i < lot.len() ==> single_links(#[trigger] lot[i].conns)
    &&& symmetric(lot)
}

/// Walls have distinct entities, no wall names another wall twice, and both
/// walls of every connection agree on it.
pub open spec fn links_consistent(lot: Seq<LotWallView>) -> bool {
    &&& entities_unique(lot)
    &&& forall|i: int| 0 <= i < lot.len() ==> single_links(#[trigger] lot[i].conns)
    &&& symmetric(lot)
}

/// What rebuilding the connections of the wall at `w` relies on: consistent
/// links, and the wall at `w` names only walls of the lot (the update looks
/// each of them up). Nothing is asked of what the other walls name.
pub open spec fn update_ready(lot: Seq<LotWallView>, w: int) -> bool {
    &&& 0 <= w < lot.len()
    &&& links_consistent(lot)
    &&& forall|k: PointKind, x: int|
        0 <= x < lot[w].conns.at(k).len() ==> {
            lot_index(lot, #[trigger] lot[w].conns.at(k)[x].wall_entity) is Some
        }
}

/// `c` names the wall `entity` somewhere.
pub open spec fn mentions(c: ConnView, entity: u64) -> bool {
    exists|k: PointKind, x: int| 0 <= x < c.at(k).len() && #[trigger] c.at(k)[x].wall_entity == entity
}

proof fn lemma_remove_index<A>(s: Seq<A>, i: int, x: int)
    requires
        0 <= i < s.len(),
        0 <= x < s.len() - 1,
    ensures
        s.remove(i)[x] == if x < i { s[x] } else { s[x + 1] },
{
}

/// What dropping the connection to `entity` does to connections that name no
/// wall twice.
pub proof fn lemma_without(c: ConnView, entity: u64)
    requires
        single_links(c),
    ensures
        single_links(c.without(entity)),
        !mentions(c.without(entity), entity),
        forall|k: PointKind, e: u64, kind: PointKind|
            e != entity ==> (#[trigger] has_link(c.without(entity).at(k), e, kind) <==> has_link(
                c.at(k),
                e,
                kind,
            )),
        forall|e: u64| #[trigger] mentions(c.without(entity), e) ==> mentions(c, e),
{
    lemma_first_index(c.start, entity);
    lemma_first_index(c.end, entity);
    let d = c.without(entity);
    match c.position(entity) {
        None => {
            assert(d == c);
            assert forall|k: PointKind, x: int| 0 <= x < c.at(k).len() implies #[trigger] c.at(k)[x].wall_entity != entity by {
                match k {
                    PointKind::Start => {},
                    PointKind::End => {},
                }
            }
        },
        Some((k0, i0)) => {
            assert(0 <= i0 < c.at(k0).len() && c.at(k0)[i0].wall_entity == entity) by {
                match k0 {
                    PointKind::Start => {},
                    PointKind::End => {},
                }
            }
            assert(d.at(k0) == c.at(k0).remove(i0)) by {
                match k0 {
                    PointKind::Start => {},
                    PointKind::End => {},
                }
            }
            // Every entry of `d` is an entry of `c`, and distinct entries of `d`
            // come from distinct entries of `c`.
            let src = |k: PointKind, x: int| if k == k0 && x >= i0 { x + 1 } else { x };
            assert forall|k: PointKind, x: int| 0 <= x < d.at(k).len() implies 0 <= src(k, x) < c.at(
                k,
            ).len() && #[trigger] d.at(k)[x] == c.at(k)[src(k, x)] && src(k, x) != i0 || k != k0 by {
                if k == k0 {
                    lemma_remove_index(c.at(k0), i0, x);
                } else {
                    match k {
                        PointKind::Start => { assert(k0 == PointKind::End); },
                        PointKind::End => { assert(k0 == PointKind::Start); },
                    }
                }
            }
            assert forall|k1: PointKind, x1: int, k2: PointKind, x2: int|
                0 <= x1 < d.at(k1).len() && 0 <= x2 < d.at(k2).len() && (k1 != k2 || x1 != x2)
                    implies #[trigger] d.at(k1)[x1].wall_entity != #[trigger] d.at(k2)[x2].wall_entity by {
                assert(d.at(k1)[x1] == c.at(k1)[src(k1, x1)]);
                assert(d.at(k2)[x2] == c.at(k2)[src(k2, x2)]);
            }
            assert forall|k: PointKind, x: int| 0 <= x < d.at(k).len() implies #[trigger] d.at(k)[x].wall_entity != entity by {
                assert(d.at(k)[x] == c.at(k)[src(k, x)]);
                assert(c.at(k0)[i0].wall_entity == entity);
            }
            assert forall|k: PointKind, e: u64, kind: PointKind|
                e != entity implies (#[trigger] has_link(d.at(k), e, kind) <==> has_link(c.at(k), e, kind)) by {
                if has_link(d.at(k), e, kind) {
                    let x = choose|x: int| 0 <= x < d.at(k).len() && #[trigger] d.at(k)[x].wall_entity == e && d.at(k)[x].point_kind == kind;
                    assert(d.at(k)[x] == c.at(k)[src(k, x)]);
                }
                if has_link(c.at(k), e, kind) {
                    let y = choose|y: int| 0 <= y < c.at(k).len() && #[trigger] c.at(k)[y].wall_entity == e && c.at(k)[y].point_kind == kind;
                    if k == k0 {
                        assert(y != i0);
                        let x = if y < i0 { y } else { y - 1 };
                        lemma_remove_index(c.at(k0), i0, x);
                        assert(d.at(k)[x] == c.at(k)[y]);
                    } else {
                        assert(d.at(k) == c.at(k)) by {
                            match k {
                                PointKind::Start => {},
                                PointKind::End => {},
                            }
                        }
                        assert(d.at(k)[y] == c.at(k)[y]);
                    }
                }
            }
            assert forall|e: u64| #[trigger] mentions(d, e) implies mentions(c, e) by {
                let (k, x) = choose|k: PointKind, x: int| 0 <= x < d.at(k).len() && #[trigger] d.at(k)[x].wall_entity == e;
                assert(d.at(k)[x] == c.at(k)[src(k, x)]);
            }
        },
    }
}

/// What adding one connection does.
pub proof fn lemma_push(c: ConnView, k: PointKind, conn: WallConnection)
    ensures
        forall|k2: PointKind, e: u64, kind: PointKind|
            #[trigger] has_link(c.push(k, conn).at(k2), e, kind) <==> has_link(c.at(k2), e, kind) || (
            k2 == k && conn.wall_entity == e && conn.point_kind == kind),
        forall|k2: PointKind, x: int|
            0 <= x < c.push(k, conn).at(k2).len() ==> (#[trigger] c.push(k, conn).at(k2)[x] == conn
                || exists|y: int| 0 <= y < c.at(k2).len() && c.push(k, conn).at(k2)[x] == c.at(k2)[y]),
        single_links(c) && !mentions(c, conn.wall_entity) ==> single_links(c.push(k, conn)),
        forall|e: u64| #[trigger] mentions(c.push(k, conn), e) <==> mentions(c, e) || e == conn.wall_entity,
{
    let d = c.push(k, conn);
    assert forall|k2: PointKind| #[trigger] d.at(k2) == if k2 == k { c.at(k2).push(conn) } else { c.at(k2) } by {
        match k {
            PointKind::Start => { match k2 { PointKind::Start => {}, PointKind::End => {} } },
            PointKind::End => { match k2 { PointKind::Start => {}, PointKind::End => {} } },
        }
    }
    assert forall|k2: PointKind, e: u64, kind: PointKind|
        #[trigger] has_link(d.at(k2), e, kind) <==> has_link(c.at(k2), e, kind) || (k2 == k
            && conn.wall_entity == e && conn.point_kind == kind) by {
        if has_link(d.at(k2), e, kind) {
            let x = choose|x: int| 0 <= x < d.at(k2).len() && #[trigger] d.at(k2)[x].wall_entity == e && d.at(k2)[x].point_kind == kind;
            if x < c.at(k2).len() {
                assert(d.at(k2)[x] == c.at(k2)[x]);
            }
        }
        if has_link(c.at(k2), e, kind) {
            let y = choose|y: int| 0 <= y < c.at(k2).len() && #[trigger] c.at(k2)[y].wall_entity == e && c.at(k2)[y].point_kind == kind;
            assert(d.at(k2)[y] == c.at(k2)[y]);
        }
        if k2 == k && conn.wall_entity == e && conn.point_kind == kind {
            assert(d.at(k2)[c.at(k2).len() as int] == conn);
        }
    }
    assert forall|k2: PointKind, x: int| 0 <= x < d.at(k2).len() implies (#[trigger] d.at(k2)[x] == conn
        || exists|y: int| 0 <= y < c.at(k2).len() && d.at(k2)[x] == c.at(k2)[y]) by {
        if x < c.at(k2).len() {
            assert(d.at(k2)[x] == c.at(k2)[x]);
        }
    }
    if single_links(c) && !mentions(c, conn.wall_entity) {
        assert forall|k1: PointKind, x1: int, k2: PointKind, x2: int|
            0 <= x1 < d.at(k1).len() && 0 <= x2 < d.at(k2).len() && (k1 != k2 || x1 != x2)
                implies #[trigger] d.at(k1)[x1].wall_entity != #[trigger] d.at(k2)[x2].wall_entity by {
            if x1 < c.at(k1).len() {
                assert(d.at(k1)[x1] == c.at(k1)[x1]);
            }
            if x2 < c.at(k2).len() {
                assert(d.at(k2)[x2] == c.at(k2)[x2]);
            }
        }
    }
    assert forall|e: u64| #[trigger] mentions(d, e) <==> mentions(c, e) || e == conn.wall_entity by {
        if mentions(d, e) {
            let (k2, x) = choose|k2: PointKind, x: int| 0 <= x < d.at(k2).len() && #[trigger] d.at(k2)[x].wall_entity == e;
            if x < c.at(k2).len() {
                assert(d.at(k2)[x] == c.at(k2)[x]);
            }
        }
        if mentions(c, e) {
            let (k2, y) = choose|k2: PointKind, y: int| 0 <= y < c.at(k2).len() && #[trigger] c.at(k2)[y].wall_entity == e;
            assert(d.at(k2)[y] == c.at(k2)[y]);
        }
        if e == conn.wall_entity {
            assert(d.at(k)[c.at(k).len() as int] == conn);
        }
    }
}

/// The entities of `c` are those it mentions, each once if no wall is named twice.
pub proof fn lemma_entities(c: ConnView)
    ensures
        forall|e: u64| #[trigger] c.entities().contains(e) <==> mentions(c, e),
        single_links(c) ==> forall|a: int, b: int|
            0 <= a < b < c.entities().len() ==> c.entities()[a] != c.entities()[b],
{
    let all = c.start + c.end;
    let es = c.entities();
    assert(es.len() == all.len());
    assert forall|a: int| 0 <= a < es.len() implies #[trigger] es[a] == (if a < c.start.len() {
        c.at(PointKind::Start)[a].wall_entity
    } else {
        c.at(PointKind::End)[a - c.start.len()].wall_entity
    }) by {}
    assert forall|e: u64| #[trigger] es.contains(e) <==> mentions(c, e) by {
        if es.contains(e) {
            let a = choose|a: int| 0 <= a < es.len() && es[a] == e;
            if a < c.start.len() {
                assert(c.at(PointKind::Start)[a].wall_entity == e);
            } else {
                assert(c.at(PointKind::End)[a - c.start.len()].wall_entity == e);
            }
        }
        if mentions(c, e) {
            let (k, x) = choose|k: PointKind, x: int| 0 <= x < c.at(k).len() && #[trigger] c.at(k)[x].wall_entity == e;
            match k {
                PointKind::Start => { assert(es[x] == e); },
                PointKind::End => { assert(es[c.start.len() + x] == e); },
            }
        }
    }
    if single_links(c) {
        assert forall|a: int, b: int| 0 <= a < b < es.len() implies es[a] != es[b] by {
            let ka = if a < c.start.len() { PointKind::Start } else { PointKind::End };
            let xa = if a < c.start.len() { a } else { a - c.start.len() };
            let kb = if b < c.start.len() { PointKind::Start } else { PointKind::End };
            let xb = if b < c.start.len() { b } else { b - c.start.len() };
            assert(es[a] == c.at(ka)[xa].wall_entity);
            assert(es[b] == c.at(kb)[xb].wall_entity);
        }
    }
}

/// Dropping the connection to `entity` from each wall of `targets`, which name
/// distinct walls of the lot, touches exactly those walls.
pub proof fn lemma_unlink_all(lot: Seq<LotWallView>, targets: Seq<u64>, entity: u64)
    requires
        entities_unique(lot),
        forall|a: int| 0 <= a < targets.len() ==> lot_index(lot, #[trigger] targets[a]) is Some,
        forall|a: int, b: int| 0 <= a < b < targets.len() ==> targets[a] != targets[b],
    ensures
        same_walls(unlink_all(lot, targets, entity), lot),
        forall|j: int|
            0 <= j < lot.len() ==> (#[trigger] unlink_all(lot, targets, entity)[j]).conns == if targets.contains(
                lot[j].entity,
            ) {
                lot[j].conns.without(entity)
            } else {
                lot[j].conns
            },
    decreases targets.len(),
{
    if targets.len() > 0 {
        let rest = targets.drop_last();
        let t = targets.last();
        lemma_unlink_all(lot, rest, entity);
        let prev = unlink_all(lot, rest, entity);
        lemma_same_walls_index(prev, lot, t);
        lemma_lot_index(lot, t);
        let js = lot_index(lot, t).unwrap();
        assert(!rest.contains(t)) by {
            if rest.contains(t) {
                let a = choose|a: int| 0 <= a < rest.len() && rest[a] == t;
                assert(targets[a] == targets[targets.len() - 1]);
            }
        }
        let u = unlink_all(lot, targets, entity);
        assert(u == unlink_one(prev, t, entity));
        assert(u == prev.update(js, with_conns(prev[js], prev[js].conns.without(entity))));
        assert forall|j: int| 0 <= j < lot.len() implies (#[trigger] u[j]).conns == if targets.contains(
            lot[j].entity,
        ) {
            lot[j].conns.without(entity)
        } else {
            lot[j].conns
        } by {
            assert(targets.contains(lot[j].entity) <==> rest.contains(lot[j].entity) || lot[j].entity == t) by {
                if targets.contains(lot[j].entity) {
                    let a = choose|a: int| 0 <= a < targets.len() && targets[a] == lot[j].entity;
                    if a < rest.len() {
                        assert(rest[a] == targets[a]);
                    }
                }
                if rest.contains(lot[j].entity) {
                    let a = choose|a: int| 0 <= a < rest.len() && rest[a] == lot[j].entity;
                    assert(targets[a] == rest[a]);
                }
                if lot[j].entity == t {
                    assert(targets[targets.len() - 1] == t);
                }
            }
            if j != js {
                assert(lot[j].entity != t) by {
                    if j < js {} else {}
                }
            }
        }
    }
}

/// What [`scan`] builds: the new connections of the other walls, and those of
/// the wall `entity` itself.
pub proof fn lemma_scan(lot: Seq<LotWallView>, entity: u64, wall: Wall, n: nat)
    requires
        n <= lot.len(),
        entities_unique(lot),
    ensures
        same_walls(scan(lot, entity, wall, n).0, lot),
        forall|j: int|
            0 <= j < lot.len() ==> (#[trigger] scan(lot, entity, wall, n).0[j]).conns == if j < n
                && lot[j].entity != entity && link(wall, lot[j].wall) is Some {
                lot[j].conns.push(
                    link(wall, lot[j].wall).unwrap().1,
                    WallConnection {
                        wall_entity: entity,
                        point_kind: link(wall, lot[j].wall).unwrap().0,
                        wall,
                    },
                )
            } else {
                lot[j].conns
            },
        forall|k: PointKind, e: u64, kind: PointKind|
            #[trigger] has_link(scan(lot, entity, wall, n).1.at(k), e, kind) <==> exists|j: int|
                0 <= j < n && #[trigger] lot[j].entity == e && e != entity && link(wall, lot[j].wall)
                    == Some((k, kind)),
        forall|e: u64|
            #[trigger] mentions(scan(lot, entity, wall, n).1, e) ==> e != entity && exists|j: int|
                0 <= j < n && #[trigger] lot[j].entity == e,
        single_links(scan(lot, entity, wall, n).1),
    decreases n,
{
    let (l, c) = scan(lot, entity, wall, n);
    if n == 0 {
        assert(c == ConnView::empty());
        assert forall|k: PointKind, e: u64, kind: PointKind|
            #[trigger] has_link(c.at(k), e, kind) <==> exists|j: int|
                0 <= j < n && #[trigger] lot[j].entity == e && e != entity && link(wall, lot[j].wall)
                    == Some((k, kind)) by {
            match k { PointKind::Start => {}, PointKind::End => {} }
        }
        assert forall|e: u64| #[trigger] mentions(c, e) implies e != entity && exists|j: int|
                0 <= j < n && #[trigger] lot[j].entity == e by {
            let (k, x) = choose|k: PointKind, x: int| 0 <= x < c.at(k).len() && #[trigger] c.at(k)[x].wall_entity == e;
            match k { PointKind::Start => {}, PointKind::End => {} }
        }
        assert forall|k1: PointKind, x1: int, k2: PointKind, x2: int|
            0 <= x1 < c.at(k1).len() && 0 <= x2 < c.at(k2).len() && (k1 != k2 || x1 != x2)
                implies #[trigger] c.at(k1)[x1].wall_entity != #[trigger] c.at(k2)[x2].wall_entity by {
            match k1 { PointKind::Start => {}, PointKind::End => {} }
        }
    } else {
        let m = (n - 1) as nat;
        lemma_scan(lot, entity, wall, m);
        let (pl, pc) = scan(lot, entity, wall, m);
        let j = m as int;
        if lot[j].entity == entity || link(wall, lot[j].wall) is None {
            assert((l, c) == (pl, pc));
            assert forall|k: PointKind, e: u64, kind: PointKind|
                #[trigger] has_link(c.at(k), e, kind) <==> exists|i: int|
                    0 <= i < n && #[trigger] lot[i].entity == e && e != entity && link(wall, lot[i].wall)
                        == Some((k, kind)) by {
                if exists|i: int| 0 <= i < n && #[trigger] lot[i].entity == e && e != entity && link(wall, lot[i].wall)
                        == Some((k, kind)) {
                    let i = choose|i: int| 0 <= i < n && #[trigger] lot[i].entity == e && e != entity && link(wall, lot[i].wall)
                        == Some((k, kind));
                    assert(i < m);
                }
            }
            assert forall|e: u64| #[trigger] mentions(c, e) implies e != entity && exists|i: int|
                    0 <= i < n && #[trigger] lot[i].entity == e by {
                let i = choose|i: int| 0 <= i < m && #[trigger] lot[i].entity == e;
            }
        } else {
            let (kw, kj) = link(wall, lot[j].wall).unwrap();
            let conn = WallConnection { wall_entity: lot[j].entity, point_kind: kj, wall: lot[j].wall };
            assert(pl[j] == lot[j]) by {
                assert(pl[j].conns == lot[j].conns);
            }
            assert(c == pc.push(kw, conn));
            lemma_push(pc, kw, conn);
            assert(!mentions(pc, lot[j].entity)) by {
                if mentions(pc, lot[j].entity) {
                    let i = choose|i: int| 0 <= i < m && #[trigger] lot[i].entity == lot[j].entity;
                }
            }
            assert forall|k: PointKind, e: u64, kind: PointKind|
                #[trigger] has_link(c.at(k), e, kind) <==> exists|i: int|
                    0 <= i < n && #[trigger] lot[i].entity == e && e != entity && link(wall, lot[i].wall)
                        == Some((k, kind)) by {
                if exists|i: int| 0 <= i < n && #[trigger] lot[i].entity == e && e != entity && link(wall, lot[i].wall)
                        == Some((k, kind)) {
                    let i = choose|i: int| 0 <= i < n && #[trigger] lot[i].entity == e && e != entity && link(wall, lot[i].wall)
                        == Some((k, kind));
                    if i < m {
                        assert(has_link(pc.at(k), e, kind));
                    }
                }
                if has_link(pc.at(k), e, kind) {
                    let i = choose|i: int| 0 <= i < m && #[trigger] lot[i].entity == e && e != entity && link(wall, lot[i].wall)
                        == Some((k, kind));
                }
            }
            assert forall|e: u64| #[trigger] mentions(c, e) implies e != entity && exists|i: int|
                    0 <= i < n && #[trigger] lot[i].entity == e by {
                if mentions(pc, e) {
                    let i = choose|i: int| 0 <= i < m && #[trigger] lot[i].entity == e;
                }
            }
        }
    }
}

proof fn lemma_index_of_entity(lot: Seq<LotWallView>, j: int)
    requires
        0 <= j < lot.len(),
    ensures
        lot_index(lot, lot[j].entity) is Some,
{
    lemma_lot_index(lot, lot[j].entity);
}

/// The lot once the wall at `w` has dropped its connections on both sides.
pub open spec fn stage_unlinked(lot: Seq<LotWallView>, w: int) -> Seq<LotWallView> {
    unlink_all(
        lot.update(w, with_conns(lot[w], ConnView::empty())),
        lot[w].conns.entities(),
        lot[w].entity,
    )
}

/// The lot and the new connections of the wall at `w` once it is connected again.
pub open spec fn stage_linked(lot: Seq<LotWallView>, w: int) -> (Seq<LotWallView>, ConnView) {
    let u = stage_unlinked(lot, w);
    if lot[w].wall.is_point() {
        (u, ConnView::empty())
    } else {
        scan(u, lot[w].entity, lot[w].wall, u.len())
    }
}

proof fn lemma_stages(lot: Seq<LotWallView>, w: int)
    requires
        0 <= w < lot.len(),
    ensures
        update_spec(lot, w) == stage_linked(lot, w).0.update(
            w,
            with_conns(stage_linked(lot, w).0[w], stage_linked(lot, w).1),
        ),
{
}

proof fn lemma_unlink_stage(lot: Seq<LotWallView>, w: int)
    requires
        update_ready(lot, w),
        0 <= w < lot.len(),
    ensures
        same_walls(stage_unlinked(lot, w), lot),
        forall|e: u64| #[trigger] lot[w].conns.entities().contains(e) <==> mentions(lot[w].conns, e),
        forall|j: int|
            0 <= j < lot.len() ==> (#[trigger] stage_unlinked(lot, w)[j]).conns == if j == w {
                ConnView::empty()
            } else if lot[w].conns.entities().contains(lot[j].entity) {
                lot[j].conns.without(lot[w].entity)
            } else {
                lot[j].conns
            },
{
    let me = lot[w];
    let big_w = me.entity;
    let cleared = lot.update(w, with_conns(me, ConnView::empty()));
    let targets = me.conns.entities();
    lemma_entities(me.conns);
    assert(single_links(lot[w].conns));
    assert(same_walls(cleared, lot));
    assert(entities_unique(cleared));
    assert forall|a: int| 0 <= a < targets.len() implies lot_index(cleared, #[trigger] targets[a]) is Some by {
        assert(targets.contains(targets[a]));
        let (k, x) = choose|k: PointKind, x: int| 0 <= x < me.conns.at(k).len() && #[trigger] me.conns.at(k)[x].wall_entity == targets[a];
        assert(lot[w].conns.at(k)[x].wall_entity == targets[a]);
        lemma_same_walls_index(cleared, lot, targets[a]);
    }
    lemma_unlink_all(cleared, targets, big_w);
    assert(ConnView::empty().position(big_w) is None);
    assert forall|j: int| 0 <= j < lot.len() implies (#[trigger] stage_unlinked(lot, w)[j]).conns == if j == w {
                ConnView::empty()
            } else if targets.contains(lot[j].entity) {
                lot[j].conns.without(big_w)
            } else {
                lot[j].conns
            } by {
        if j != w {
            assert(cleared[j] == lot[j]);
        } else {
            assert(cleared[w].conns == ConnView::empty());
        }
    }
}

/// After the first stage, the wall `j` no longer names the wall `w`, and the rest is as before.
proof fn lemma_unlinked_one(lot: Seq<LotWallView>, w: int, j: int)
    requires
        update_ready(lot, w),
        0 <= w < lot.len(),
        0 <= j < lot.len(),
        j != w,
    ensures
        !mentions(stage_unlinked(lot, w)[j].conns, lot[w].entity),
        single_links(stage_unlinked(lot, w)[j].conns),
        forall|k: PointKind, e: u64, kind: PointKind|
            e != lot[w].entity ==> (#[trigger] has_link(stage_unlinked(lot, w)[j].conns.at(k), e, kind)
                <==> has_link(lot[j].conns.at(k), e, kind)),
        forall|e: u64| #[trigger] mentions(stage_unlinked(lot, w)[j].conns, e) ==> mentions(lot[j].conns, e),
{
    let me = lot[w];
    let big_w = me.entity;
    let unlinked = stage_unlinked(lot, w);
    lemma_unlink_stage(lot, w);
    assert(single_links(lot[j].conns));
    if me.conns.entities().contains(lot[j].entity) {
        lemma_without(lot[j].conns, big_w);
    } else {
        assert(unlinked[j].conns == lot[j].conns);
        if mentions(lot[j].conns, big_w) {
            let (k, x) = choose|k: PointKind, x: int| 0 <= x < lot[j].conns.at(k).len() && #[trigger] lot[j].conns.at(k)[x].wall_entity == big_w;
            let kk = lot[j].conns.at(k)[x].point_kind;
            assert(linked(lot[j], k, lot[w].entity, kk));
            assert(linked(lot[w], kk, lot[j].entity, k));
            let y = choose|y: int| 0 <= y < me.conns.at(kk).len() && #[trigger] me.conns.at(kk)[y].wall_entity == lot[j].entity && me.conns.at(kk)[y].point_kind == k;
            assert(mentions(me.conns, lot[j].entity));
        }
    }
}

/// After the first stage, no other wall names the wall `w`, and the rest is as before.
proof fn lemma_unlinked(lot: Seq<LotWallView>, w: int)
    requires
        update_ready(lot, w),
        0 <= w < lot.len(),
    ensures
        same_walls(stage_unlinked(lot, w), lot),
        stage_unlinked(lot, w)[w].conns == ConnView::empty(),
        forall|j: int|
            0 <= j < lot.len() && j != w ==> !mentions(#[trigger] stage_unlinked(lot, w)[j].conns, lot[w].entity)
                && single_links(stage_unlinked(lot, w)[j].conns),
        forall|j: int, k: PointKind, e: u64, kind: PointKind|
            0 <= j < lot.len() && j != w && e != lot[w].entity ==> (#[trigger] has_link(
                stage_unlinked(lot, w)[j].conns.at(k),
                e,
                kind,
            ) <==> has_link(lot[j].conns.at(k), e, kind)),
        forall|j: int, e: u64|
            0 <= j < lot.len() && j != w && #[trigger] mentions(stage_unlinked(lot, w)[j].conns, e)
                ==> mentions(lot[j].conns, e),
{
    lemma_unlink_stage(lot, w);
    assert forall|j: int| 0 <= j < lot.len() && j != w implies !mentions(#[trigger] stage_unlinked(lot, w)[j].conns, lot[w].entity)
                && single_links(stage_unlinked(lot, w)[j].conns) by {
        lemma_unlinked_one(lot, w, j);
    }
    assert forall|j: int, k: PointKind, e: u64, kind: PointKind|
            0 <= j < lot.len() && j != w && e != lot[w].entity implies (#[trigger] has_link(
                stage_unlinked(lot, w)[j].conns.at(k),
                e,
                kind,
            ) <==> has_link(lot[j].conns.at(k), e, kind)) by {
        lemma_unlinked_one(lot, w, j);
    }
    assert forall|j: int, e: u64|
            0 <= j < lot.len() && j != w && #[trigger] mentions(stage_unlinked(lot, w)[j].conns, e)
                implies mentions(lot[j].conns, e) by {
        lemma_unlinked_one(lot, w, j);
    }
}

/// The new connections of the wall at `w`.
proof fn lemma_linked_self(lot: Seq<LotWallView>, w: int)
    requires
        update_ready(lot, w),
        0 <= w < lot.len(),
    ensures
        same_walls(stage_linked(lot, w).0, lot),
        single_links(stage_linked(lot, w).1),
        forall|k: PointKind, e: u64, kind: PointKind|
            #[trigger] has_link(stage_linked(lot, w).1.at(k), e, kind) <==> !lot[w].wall.is_point()
                && exists|j: int|
                0 <= j < lot.len() && #[trigger] lot[j].entity == e && e != lot[w].entity && link(
                    lot[w].wall,
                    lot[j].wall,
                ) == Some((k, kind)),
        forall|e: u64|
            #[trigger] mentions(stage_linked(lot, w).1, e) ==> e != lot[w].entity && exists|j: int|
                0 <= j < lot.len() && #[trigger] lot[j].entity == e,
        forall|i: int|
            0 <= i < lot.len() && i != w ==> (#[trigger] stage_linked(lot, w).0[i]).conns == if !lot[w].wall.is_point()
                && link(lot[w].wall, lot[i].wall) is Some {
                stage_unlinked(lot, w)[i].conns.push(
                    link(lot[w].wall, lot[i].wall).unwrap().1,
                    WallConnection {
                        wall_entity: lot[w].entity,
                        point_kind: link(lot[w].wall, lot[i].wall).unwrap().0,
                        wall: lot[w].wall,
                    },
                )
            } else {
                stage_unlinked(lot, w)[i].conns
            },
{
    let me = lot[w];
    let big_w = me.entity;
    let unlinked = stage_unlinked(lot, w);
    let (linked_lot, mine) = stage_linked(lot, w);
    lemma_unlinked(lot, w);
    assert(entities_unique(unlinked));
    if !me.wall.is_point() {
        lemma_scan(unlinked, big_w, me.wall, unlinked.len());
        assert forall|k: PointKind, e: u64, kind: PointKind|
            #[trigger] has_link(mine.at(k), e, kind) <==> !lot[w].wall.is_point() && exists|j: int|
                0 <= j < lot.len() && #[trigger] lot[j].entity == e && e != lot[w].entity && link(
                    lot[w].wall,
                    lot[j].wall,
                ) == Some((k, kind)) by {
            if exists|j: int| 0 <= j < lot.len() && #[trigger] lot[j].entity == e && e != lot[w].entity && link(lot[w].wall, lot[j].wall) == Some((k, kind)) {
                let j = choose|j: int| 0 <= j < lot.len() && #[trigger] lot[j].entity == e && e != lot[w].entity && link(lot[w].wall, lot[j].wall) == Some((k, kind));
                assert(unlinked[j].entity == e && unlinked[j].wall == lot[j].wall);
            }
            if has_link(mine.at(k), e, kind) {
                let j = choose|j: int| 0 <= j < unlinked.len() && #[trigger] unlinked[j].entity == e && e != big_w && link(me.wall, unlinked[j].wall) == Some((k, kind));
                assert(lot[j].entity == e && unlinked[j].wall == lot[j].wall);
            }
        }
        assert forall|e: u64| #[trigger] mentions(mine, e) implies e != lot[w].entity && exists|j: int|
                0 <= j < lot.len() && #[trigger] lot[j].entity == e by {
            let j = choose|j: int| 0 <= j < unlinked.len() && #[trigger] unlinked[j].entity == e;
            assert(lot[j].entity == e);
        }
        assert forall|i: int| 0 <= i < lot.len() && i != w implies (#[trigger] linked_lot[i]).conns == if !lot[w].wall.is_point()
                && link(lot[w].wall, lot[i].wall) is Some {
                unlinked[i].conns.push(
                    link(lot[w].wall, lot[i].wall).unwrap().1,
                    WallConnection {
                        wall_entity: lot[w].entity,
                        point_kind: link(lot[w].wall, lot[i].wall).unwrap().0,
                        wall: lot[w].wall,
                    },
                )
            } else {
                unlinked[i].conns
            } by {
            assert(unlinked[i].entity != big_w) by {
                if i < w {} else {}
            }
        }
    } else {
        assert forall|k: PointKind, e: u64, kind: PointKind| !#[trigger] has_link(mine.at(k), e, kind) by {
            match k { PointKind::Start => {}, PointKind::End => {} }
        }
        assert forall|k1: PointKind, x1: int, k2: PointKind, x2: int|
            0 <= x1 < mine.at(k1).len() && 0 <= x2 < mine.at(k2).len() && (k1 != k2 || x1 != x2)
                implies #[trigger] mine.at(k1)[x1].wall_entity != #[trigger] mine.at(k2)[x2].wall_entity by {
            match k1 { PointKind::Start => {}, PointKind::End => {} }
        }
        assert forall|e: u64| !#[trigger] mentions(mine, e) by {
            if mentions(mine, e) {
                let (k, x) = choose|k: PointKind, x: int| 0 <= x < mine.at(k).len() && #[trigger] mine.at(k)[x].wall_entity == e;
                match k { PointKind::Start => {}, PointKind::End => {} }
            }
        }
    }
}

/// The connections of the other walls after rebuilding those of the wall at `w`.
proof fn lemma_linked_others(lot: Seq<LotWallView>, w: int)
    requires
        update_ready(lot, w),
        0 <= w < lot.len(),
    ensures
        forall|i: int, k: PointKind, e: u64, kind: PointKind|
            0 <= i < lot.len() && i != w ==> (#[trigger] has_link(
                update_spec(lot, w)[i].conns.at(k),
                e,
                kind,
            ) <==> (e != lot[w].entity && has_link(lot[i].conns.at(k), e, kind)) || (e
                == lot[w].entity && !lot[w].wall.is_point() && link(lot[w].wall, lot[i].wall) == Some(
                (kind, k),
            ))),
        forall|i: int| 0 <= i < lot.len() && i != w ==> single_links(#[trigger] update_spec(lot, w)[i].conns),
{
    let me = lot[w];
    let big_w = me.entity;
    let unlinked = stage_unlinked(lot, w);
    let (linked_lot, mine) = stage_linked(lot, w);
    let f = update_spec(lot, w);
    lemma_stages(lot, w);
    lemma_unlinked(lot, w);
    lemma_linked_self(lot, w);
    assert forall|i: int, k: PointKind, e: u64, kind: PointKind|
        0 <= i < lot.len() && i != w implies (#[trigger] has_link(f[i].conns.at(k), e, kind) <==> (e
            != lot[w].entity && has_link(lot[i].conns.at(k), e, kind)) || (e == lot[w].entity
            && !lot[w].wall.is_point() && link(lot[w].wall, lot[i].wall) == Some((kind, k)))) by {
        assert(f[i] == linked_lot[i]);
        assert(!mentions(unlinked[i].conns, big_w));
        if e == big_w && has_link(unlinked[i].conns.at(k), e, kind) {
            let x = choose|x: int| 0 <= x < unlinked[i].conns.at(k).len() && #[trigger] unlinked[i].conns.at(k)[x].wall_entity == e && unlinked[i].conns.at(k)[x].point_kind == kind;
            assert(mentions(unlinked[i].conns, big_w));
        }
        if !me.wall.is_point() && link(me.wall, lot[i].wall) is Some {
            let (kw, ki) = link(me.wall, lot[i].wall).unwrap();
            let conn = WallConnection { wall_entity: big_w, point_kind: kw, wall: me.wall };
            lemma_push(unlinked[i].conns, ki, conn);
        }
    }
    assert forall|i: int| 0 <= i < lot.len() && i != w implies single_links(#[trigger] f[i].conns) by {
        assert(f[i] == linked_lot[i]);
        if !me.wall.is_point() && link(me.wall, lot[i].wall) is Some {
            let (kw, ki) = link(me.wall, lot[i].wall).unwrap();
            let conn = WallConnection { wall_entity: big_w, point_kind: kw, wall: me.wall };
            lemma_push(unlinked[i].conns, ki, conn);
        }
    }
}

/// In a lot whose connections name only walls of the lot, the other walls
/// still do so after rebuilding the connections of the wall at `w`.
proof fn lemma_linked_others_targets(lot: Seq<LotWallView>, w: int)
    requires
        connections_wf(lot),
        0 <= w < lot.len(),
    ensures
        forall|i: int, k: PointKind, x: int|
            0 <= i < lot.len() && i != w && 0 <= x < update_spec(lot, w)[i].conns.at(k).len() ==> {
                let e = #[trigger] update_spec(lot, w)[i].conns.at(k)[x].wall_entity;
                e != lot[i].entity && exists|j: int| 0 <= j < lot.len() && lot[j].entity == e
            },

{
    let me = lot[w];
    let big_w = me.entity;
    let unlinked = stage_unlinked(lot, w);
    let (linked_lot, mine) = stage_linked(lot, w);
    let f = update_spec(lot, w);
    lemma_stages(lot, w);
    lemma_unlinked(lot, w);
    lemma_linked_self(lot, w);
    assert forall|i: int, k: PointKind, x: int|
        0 <= i < lot.len() && i != w && 0 <= x < f[i].conns.at(k).len() implies {
            let e = #[trigger] f[i].conns.at(k)[x].wall_entity;
            e != lot[i].entity && exists|j: int| 0 <= j < lot.len() && lot[j].entity == e
        } by {
        let e = f[i].conns.at(k)[x].wall_entity;
        assert(f[i] == linked_lot[i]);
        assert(lot[i].entity != big_w) by {
            if i < w {} else {}
        }
        assert(mentions(f[i].conns, e));
        if !me.wall.is_point() && link(me.wall, lot[i].wall) is Some {
            let (kw, ki) = link(me.wall, lot[i].wall).unwrap();
            let conn = WallConnection { wall_entity: big_w, point_kind: kw, wall: me.wall };
            lemma_push(unlinked[i].conns, ki, conn);
        }
        if e == big_w {
            assert(lot[w].entity == e);
        } else {
            assert(mentions(unlinked[i].conns, e));
            assert(mentions(lot[i].conns, e));
            let (k2, y) = choose|k2: PointKind, y: int| 0 <= y < lot[i].conns.at(k2).len() && #[trigger] lot[i].conns.at(k2)[y].wall_entity == e;
            assert(lot[i].conns.at(k2)[y].wall_entity == e);
            lemma_lot_index(lot, e);
        }
    }
}


/// Rebuilding the connections of a changed wall keeps walls connected in
/// pairs that agree on where they meet, with no wall named twice by another:
/// every connection is added or removed on both walls together. Afterwards
/// the changed wall is connected to exactly the other walls that it meets
/// (none if it has zero length), and the connections between the other walls
/// are as they were. Only the changed wall's own connections must name walls
/// of the lot (the update looks each of them up).
pub proof fn lemma_update_connections_symmetric(lot: Seq<LotWallView>, w: int)
    requires
        update_ready(lot, w),
    ensures
        links_consistent(update_spec(lot, w)),
        same_walls(update_spec(lot, w), lot),
        forall|j: int, kw: PointKind, kj: PointKind|
            0 <= j < lot.len() && j != w ==> (#[trigger] linked(update_spec(lot, w)[w], kw, lot[j].entity, kj)
                <==> !lot[w].wall.is_point() && link(lot[w].wall, lot[j].wall) == Some((kw, kj))),
        forall|i: int, j: int, ki: PointKind, kj: PointKind|
            0 <= i < lot.len() && 0 <= j < lot.len() && i != w && j != w ==> (#[trigger] linked(
                update_spec(lot, w)[i],
                ki,
                lot[j].entity,
                kj,
            ) <==> linked(lot[i], ki, lot[j].entity, kj)),
{
    let f = update_spec(lot, w);
    let big_w = lot[w].entity;
    lemma_stages(lot, w);
    lemma_linked_self(lot, w);
    lemma_linked_others(lot, w);
    assert(f[w].conns == stage_linked(lot, w).1);
    assert(same_walls(f, lot));
    assert(entities_unique(f));
    assert forall|i: int| 0 <= i < f.len() implies single_links(#[trigger] f[i].conns) by {
        if i == w {} else {}
    }
    assert forall|j: int, kw: PointKind, kj: PointKind|
        0 <= j < lot.len() && j != w implies (#[trigger] linked(f[w], kw, lot[j].entity, kj)
            <==> !lot[w].wall.is_point() && link(lot[w].wall, lot[j].wall) == Some((kw, kj))) by {
        assert(lot[j].entity != big_w) by {
            if j < w {} else {}
        }
        if linked(f[w], kw, lot[j].entity, kj) {
            let j2 = choose|j2: int| 0 <= j2 < lot.len() && #[trigger] lot[j2].entity == lot[j].entity && lot[j].entity != lot[w].entity && link(lot[w].wall, lot[j2].wall) == Some((kw, kj));
            assert(j2 == j) by {
                if j2 < j {} else if j < j2 {}
            }
        }
    }
    assert(symmetric(f)) by {
        assert forall|i: int, j: int, ki: PointKind, kj: PointKind|
            0 <= i < f.len() && 0 <= j < f.len() implies (#[trigger] linked(f[i], ki, f[j].entity, kj)
                <==> #[trigger] linked(f[j], kj, f[i].entity, ki)) by {
            assert(f[i].entity == lot[i].entity && f[j].entity == lot[j].entity);
            if i != w && j != w {
                assert(lot[i].entity != big_w) by { if i < w {} else {} }
                assert(lot[j].entity != big_w) by { if j < w {} else {} }
                assert(linked(lot[i], ki, lot[j].entity, kj) <==> linked(lot[j], kj, lot[i].entity, ki));
            } else if i == w && j == w {
                if linked(f[w], ki, big_w, kj) {
                    let j2 = choose|j2: int| 0 <= j2 < lot.len() && #[trigger] lot[j2].entity == big_w && big_w != lot[w].entity && link(lot[w].wall, lot[j2].wall) == Some((ki, kj));
                }
                if linked(f[w], kj, big_w, ki) {
                    let j2 = choose|j2: int| 0 <= j2 < lot.len() && #[trigger] lot[j2].entity == big_w && big_w != lot[w].entity && link(lot[w].wall, lot[j2].wall) == Some((kj, ki));
                }
            } else if i == w {
                assert(lot[j].entity != big_w) by { if j < w {} else {} }
            } else {
                assert(lot[i].entity != big_w) by { if i < w {} else {} }
            }
        }
    }
    assert forall|i: int, j: int, ki: PointKind, kj: PointKind|
        0 <= i < lot.len() && 0 <= j < lot.len() && i != w && j != w implies (#[trigger] linked(f[i], ki, lot[j].entity, kj)
            <==> linked(lot[i], ki, lot[j].entity, kj)) by {
        assert(lot[j].entity != big_w) by { if j < w {} else {} }
    }
}

/// Rebuilding the connections of a changed wall keeps the connections of the
/// lot well formed: walls are connected in pairs that agree on where they
/// meet, each wall names another wall at most once, and only walls of the lot
/// are named. Afterwards the changed wall is connected to exactly the other
/// walls that it meets (none if it has zero length), and the connections
/// between the other walls are as they were.
pub proof fn lemma_update_connections_wf(lot: Seq<LotWallView>, w: int)
    requires
        connections_wf(lot),
        0 <= w < lot.len(),
    ensures
        connections_wf(update_spec(lot, w)),
        same_walls(update_spec(lot, w), lot),
        forall|j: int, kw: PointKind, kj: PointKind|
            0 <= j < lot.len() && j != w ==> (#[trigger] linked(update_spec(lot, w)[w], kw, lot[j].entity, kj)
                <==> !lot[w].wall.is_point() && link(lot[w].wall, lot[j].wall) == Some((kw, kj))),
        forall|i: int, j: int, ki: PointKind, kj: PointKind|
            0 <= i < lot.len() && 0 <= j < lot.len() && i != w && j != w ==> (#[trigger] linked(
                update_spec(lot, w)[i],
                ki,
                lot[j].entity,
                kj,
            ) <==> linked(lot[i], ki, lot[j].entity, kj)),
{
    let f = update_spec(lot, w);
    lemma_update_connections_symmetric(lot, w);
    lemma_linked_others_targets(lot, w);
    lemma_stages(lot, w);
    lemma_linked_self(lot, w);
    assert(targets_valid(f)) by {
        assert forall|i: int, k: PointKind, x: int|
            0 <= i < f.len() && 0 <= x < f[i].conns.at(k).len() implies {
                let e = #[trigger] f[i].conns.at(k)[x].wall_entity;
                e != f[i].entity && lot_index(f, e) is Some
            } by {
            let e = f[i].conns.at(k)[x].wall_entity;
            if i == w {
                assert(mentions(f[w].conns, e));
            }
            let j = choose|j: int| 0 <= j < lot.len() && lot[j].entity == e;
            assert(f[j].entity == e);
            lemma_index_of_entity(f, j);
        }
    }
}

/// Dropping every connection to a despawned wall keeps the connections of the
/// remaining walls well formed, and the connections between them as they were.
pub proof fn lemma_cleanup_connections_wf(lot: Seq<LotWallView>, r: int)
    requires
        connections_wf(lot),
        0 <= r < lot.len(),
    ensures
        connections_wf(cleanup_one(lot.remove(r), lot[r].entity)),
        forall|i: int, j: int, ki: PointKind, kj: PointKind|
            0 <= i < lot.len() - 1 && 0 <= j < lot.len() - 1 ==> (#[trigger] linked(
                cleanup_one(lot.remove(r), lot[r].entity)[i],
                ki,
                lot.remove(r)[j].entity,
                kj,
            ) <==> linked(lot.remove(r)[i], ki, lot.remove(r)[j].entity, kj)),
{
    let rest = lot.remove(r);
    let big_r = lot[r].entity;
    let f = cleanup_one(rest, big_r);
    let src = |i: int| if i < r { i } else { i + 1 };
    assert forall|i: int| 0 <= i < rest.len() implies #[trigger] rest[i] == lot[src(i)] && src(i) != r
        && 0 <= src(i) < lot.len() by {}
    assert forall|i: int| 0 <= i < rest.len() implies rest[i].entity != big_r by {
        assert(rest[i] == lot[src(i)]);
        if src(i) < r {} else {}
    }
    assert forall|i: int| 0 <= i < f.len() implies #[trigger] f[i] == with_conns(rest[i], rest[i].conns.without(big_r)) by {}
    assert forall|i: int| 0 <= i < f.len() implies single_links(#[trigger] f[i].conns) && !mentions(f[i].conns, big_r)
        && (forall|e: u64| #[trigger] mentions(f[i].conns, e) ==> mentions(rest[i].conns, e))
        && (forall|k: PointKind, e: u64, kind: PointKind| e != big_r ==> (#[trigger] has_link(f[i].conns.at(k), e, kind) <==> has_link(rest[i].conns.at(k), e, kind))) by {
        assert(f[i] == with_conns(rest[i], rest[i].conns.without(big_r)));
        assert(rest[i] == lot[src(i)]);
        assert(single_links(lot[src(i)].conns));
        lemma_without(rest[i].conns, big_r);
    }
    assert(entities_unique(f)) by {
        assert forall|a: int, b: int| 0 <= a < b < f.len() implies f[a].entity != f[b].entity by {
            assert(rest[a] == lot[src(a)] && rest[b] == lot[src(b)]);
        }
    }
    assert(targets_valid(f)) by {
        assert forall|i: int, k: PointKind, x: int|
            0 <= i < f.len() && 0 <= x < f[i].conns.at(k).len() implies {
                let e = #[trigger] f[i].conns.at(k)[x].wall_entity;
                e != f[i].entity && lot_index(f, e) is Some
            } by {
            let e = f[i].conns.at(k)[x].wall_entity;
            assert(mentions(f[i].conns, e));
            assert(mentions(rest[i].conns, e));
            assert(e != big_r);
            let (k2, y) = choose|k2: PointKind, y: int| 0 <= y < rest[i].conns.at(k2).len() && #[trigger] rest[i].conns.at(k2)[y].wall_entity == e;
            assert(rest[i] == lot[src(i)]);
            assert(lot[src(i)].conns.at(k2)[y].wall_entity == e);
            lemma_lot_index(lot, e);
            let j = lot_index(lot, e).unwrap();
            assert(j != r);
            let jr = if j < r { j } else { j - 1 };
            assert(rest[jr] == lot[j]);
            assert(f[jr].entity == e);
            lemma_index_of_entity(f, jr);
        }
    }
    assert forall|i: int, j: int, ki: PointKind, kj: PointKind|
        0 <= i < lot.len() - 1 && 0 <= j < lot.len() - 1 implies (#[trigger] linked(f[i], ki, rest[j].entity, kj)
            <==> linked(rest[i], ki, rest[j].entity, kj)) by {
        assert(rest[j].entity != big_r);
    }
    assert(symmetric(f)) by {
        assert forall|i: int, j: int, ki: PointKind, kj: PointKind|
            0 <= i < f.len() && 0 <= j < f.len() implies (#[trigger] linked(f[i], ki, f[j].entity, kj)
                <==> #[trigger] linked(f[j], kj, f[i].entity, ki)) by {
            assert(rest[i].entity != big_r && rest[j].entity != big_r);
            assert(rest[i] == lot[src(i)] && rest[j] == lot[src(j)]);
            assert(linked(lot[src(i)], ki, lot[src(j)].entity, kj) <==> linked(lot[src(j)], kj, lot[src(i)].entity, ki));
        }
    }
}

/// `s` holds the connection `conn`.
pub open spec fn holds(s: Seq<WallConnection>, conn: WallConnection) -> bool {
    exists|y: int| 0 <= y < s.len() && s[y] == conn
}

/// The connection names the wall `entity` of the lot with its current segment.
pub open spec fn carries_current(lot: Seq<LotWallView>, conn: WallConnection) -> bool {
    forall|j: int| 0 <= j < lot.len() && #[trigger] lot[j].entity == conn.wall_entity ==> lot[j].wall == conn.wall
}

/// Every connection that does not name the wall `except` carries the current
/// segment of the wall it names.
pub open spec fn segments_current_except(lot: Seq<LotWallView>, except: Option<u64>) -> bool {
    forall|i: int, k: PointKind, x: int|
        0 <= i < lot.len() && 0 <= x < lot[i].conns.at(k).len() && Some(
            (#[trigger] lot[i].conns.at(k)[x]).wall_entity,
        ) != except ==> carries_current(lot, lot[i].conns.at(k)[x])
}

proof fn lemma_without_holds(c: ConnView, entity: u64)
    ensures
        forall|k: PointKind, conn: WallConnection|
            #[trigger] holds(c.without(entity).at(k), conn) ==> holds(c.at(k), conn),
{
    let d = c.without(entity);
    match c.position(entity) {
        None => {},
        Some((k0, i0)) => {
            lemma_first_index(c.start, entity);
            lemma_first_index(c.end, entity);
            assert(0 <= i0 < c.at(k0).len()) by {
                match k0 { PointKind::Start => {}, PointKind::End => {} }
            }
            assert forall|k: PointKind, conn: WallConnection| #[trigger] holds(d.at(k), conn) implies holds(c.at(k), conn) by {
                let x = choose|x: int| 0 <= x < d.at(k).len() && d.at(k)[x] == conn;
                if k == k0 {
                    assert(d.at(k0) == c.at(k0).remove(i0)) by {
                        match k0 { PointKind::Start => {}, PointKind::End => {} }
                    }
                    lemma_remove_index(c.at(k0), i0, x);
                    let y = if x < i0 { x } else { x + 1 };
                    assert(c.at(k)[y] == conn);
                } else {
                    assert(d.at(k) == c.at(k)) by {
                        match k0 { PointKind::Start => { match k { PointKind::Start => {}, PointKind::End => {} } }, PointKind::End => { match k { PointKind::Start => {}, PointKind::End => {} } } }
                    }
                    assert(c.at(k)[x] == conn);
                }
            }
        },
    }
}

proof fn lemma_push_holds(c: ConnView, k: PointKind, conn: WallConnection)
    ensures
        forall|k2: PointKind, v: WallConnection|
            #[trigger] holds(c.push(k, conn).at(k2), v) ==> holds(c.at(k2), v) || (k2 == k && v == conn),
{
    let d = c.push(k, conn);
    assert forall|k2: PointKind, v: WallConnection| #[trigger] holds(d.at(k2), v) implies holds(c.at(k2), v) || (k2 == k && v == conn) by {
        let x = choose|x: int| 0 <= x < d.at(k2).len() && d.at(k2)[x] == v;
        match k { PointKind::Start => { match k2 { PointKind::Start => {}, PointKind::End => {} } }, PointKind::End => { match k2 { PointKind::Start => {}, PointKind::End => {} } } }
        if x < c.at(k2).len() {
            assert(c.at(k2)[x] == v);
        }
    }
}

proof fn lemma_scan_segments(lot: Seq<LotWallView>, entity: u64, wall: Wall, n: nat)
    requires
        n <= lot.len(),
    ensures
        forall|k: PointKind, v: WallConnection|
            #[trigger] holds(scan(lot, entity, wall, n).1.at(k), v) ==> exists|j: int|
                0 <= j < n && lot[j].entity == v.wall_entity && lot[j].wall == v.wall,
    decreases n,
{
    let c = scan(lot, entity, wall, n).1;
    if n == 0 {
        assert forall|k: PointKind, v: WallConnection| #[trigger] holds(c.at(k), v) implies exists|j: int|
                0 <= j < n && lot[j].entity == v.wall_entity && lot[j].wall == v.wall by {
            match k { PointKind::Start => {}, PointKind::End => {} }
        }
    } else {
        let m = (n - 1) as nat;
        lemma_scan_segments(lot, entity, wall, m);
        let pc = scan(lot, entity, wall, m).1;
        let j = m as int;
        if lot[j].entity == entity || link(wall, lot[j].wall) is None {
            assert(c == pc);
        } else {
            let (kw, kj) = link(wall, lot[j].wall).unwrap();
            let conn = WallConnection { wall_entity: lot[j].entity, point_kind: kj, wall: lot[j].wall };
            assert(c == pc.push(kw, conn));
            lemma_push_holds(pc, kw, conn);
        }
    }
}

/// After rebuilding the connections of the changed wall, every connection
/// carries the current segment of the wall it names, provided that only the
/// connections naming the changed wall were out of date before.
pub proof fn lemma_update_connections_segments(lot: Seq<LotWallView>, w: int)
    requires
        connections_wf(lot),
        0 <= w < lot.len(),
        segments_current_except(lot, Some(lot[w].entity)),
    ensures
        segments_current_except(update_spec(lot, w), None),
{
    let f = update_spec(lot, w);
    let big_w = lot[w].entity;
    let unlinked = stage_unlinked(lot, w);
    let (linked_lot, mine) = stage_linked(lot, w);
    lemma_stages(lot, w);
    lemma_unlink_stage(lot, w);
    lemma_unlinked(lot, w);
    lemma_linked_self(lot, w);
    assert(same_walls(f, lot));
    assert forall|i: int, k: PointKind, x: int|
        0 <= i < f.len() && 0 <= x < f[i].conns.at(k).len() && Some((#[trigger] f[i].conns.at(k)[x]).wall_entity) != None::<u64>
            implies carries_current(f, f[i].conns.at(k)[x]) by {
        let v = f[i].conns.at(k)[x];
        assert(holds(f[i].conns.at(k), v));
        if i == w {
            assert(f[w].conns == mine);
            if !lot[w].wall.is_point() {
                lemma_scan_segments(unlinked, big_w, lot[w].wall, unlinked.len());
                let j = choose|j: int| 0 <= j < unlinked.len() && unlinked[j].entity == v.wall_entity && unlinked[j].wall == v.wall;
                assert forall|j2: int| 0 <= j2 < f.len() && #[trigger] f[j2].entity == v.wall_entity implies f[j2].wall == v.wall by {
                    assert(j2 == j) by { if j2 < j {} else if j < j2 {} }
                }
            } else {
                assert(mine == ConnView::empty());
                match k { PointKind::Start => {}, PointKind::End => {} }
            }
        } else {
            assert(f[i] == linked_lot[i]);
            assert(lot[i].entity != big_w) by { if i < w {} else {} }
            let pushed = !lot[w].wall.is_point() && link(lot[w].wall, lot[i].wall) is Some;
            if pushed {
                let (kw, ki) = link(lot[w].wall, lot[i].wall).unwrap();
                let conn = WallConnection { wall_entity: big_w, point_kind: kw, wall: lot[w].wall };
                lemma_push_holds(unlinked[i].conns, ki, conn);
                if !holds(unlinked[i].conns.at(k), v) {
                    assert(v == conn);
                    assert forall|j2: int| 0 <= j2 < f.len() && #[trigger] f[j2].entity == v.wall_entity implies f[j2].wall == v.wall by {
                        assert(j2 == w) by { if j2 < w {} else if w < j2 {} }
                    }
                }
            }
            let from_unlinked = holds(unlinked[i].conns.at(k), v);
            if from_unlinked {
                assert(holds(unlinked[i].conns.at(k), v));
                if lot[w].conns.entities().contains(lot[i].entity) {
                    lemma_without_holds(lot[i].conns, big_w);
                }
                assert(holds(lot[i].conns.at(k), v));
                let y = choose|y: int| 0 <= y < lot[i].conns.at(k).len() && lot[i].conns.at(k)[y] == v;
                assert(v.wall_entity != big_w) by {
                    if v.wall_entity == big_w {
                        let x2 = choose|x2: int| 0 <= x2 < unlinked[i].conns.at(k).len() && unlinked[i].conns.at(k)[x2] == v;
                        assert(unlinked[i].conns.at(k)[x2].wall_entity == big_w);
                        assert(mentions(unlinked[i].conns, big_w));
                    }
                }
                assert(lot[i].conns.at(k)[y] == v);
                assert(Some(lot[i].conns.at(k)[y].wall_entity) != Some(big_w));
                assert(carries_current(lot, v));
            }
        }
    }
}

/// Dropping the connections to a despawned wall keeps every remaining
/// connection's segment current.
pub proof fn lemma_cleanup_connections_segments(lot: Seq<LotWallView>, r: int)
    requires
        0 <= r < lot.len(),
        segments_current_except(lot, None),
    ensures
        segments_current_except(cleanup_one(lot.remove(r), lot[r].entity), None),
{
    let rest = lot.remove(r);
    let big_r = lot[r].entity;
    let f = cleanup_one(rest, big_r);
    assert forall|i: int, k: PointKind, x: int|
        0 <= i < f.len() && 0 <= x < f[i].conns.at(k).len() && Some((#[trigger] f[i].conns.at(k)[x]).wall_entity) != None::<u64>
            implies carries_current(f, f[i].conns.at(k)[x]) by {
        let v = f[i].conns.at(k)[x];
        let si = if i < r { i } else { i + 1 };
        assert(rest[i] == lot[si]);
        assert(f[i] == with_conns(rest[i], rest[i].conns.without(big_r)));
        assert(holds(f[i].conns.at(k), v));
        lemma_without_holds(rest[i].conns, big_r);
        let y = choose|y: int| 0 <= y < lot[si].conns.at(k).len() && lot[si].conns.at(k)[y] == v;
        assert(lot[si].conns.at(k)[y] == v);
        assert(carries_current(lot, v));
        assert forall|j: int| 0 <= j < f.len() && #[trigger] f[j].entity == v.wall_entity implies f[j].wall == v.wall by {
            let sj = if j < r { j } else { j + 1 };
            assert(rest[j] == lot[sj]);
        }
    }
}

/// In a lot with well-formed connections, every wall that a wall names is in
/// the lot, so its connections can always be rebuilt.
pub proof fn lemma_wf_names_walls_of_lot(lot: Seq<LotWallView>, w: int)
    requires
        connections_wf(lot),
        0 <= w < lot.len(),
    ensures
        forall|k: int|
            0 <= k < lot[w].conns.entities().len() ==> lot_index(lot, #[trigger] lot[w].conns.entities()[k]) is Some,
{
    lemma_entities(lot[w].conns);
    assert forall|k: int| 0 <= k < lot[w].conns.entities().len() implies lot_index(lot, #[trigger] lot[w].conns.entities()[k]) is Some by {
        let e = lot[w].conns.entities()[k];
        assert(lot[w].conns.entities().contains(e));
        let (kk, x) = choose|kk: PointKind, x: int| 0 <= x < lot[w].conns.at(kk).len() && #[trigger] lot[w].conns.at(kk)[x].wall_entity == e;
        assert(lot[w].conns.at(kk)[x].wall_entity == e);
    }
}

/// No entity is named twice in the list `s`.
pub open spec fn list_single(s: Seq<WallConnection>) -> bool {
    forall|x: int, y: int| 0 <= x < y < s.len() ==> #[trigger] s[x].wall_entity != #[trigger] s[y].wall_entity
}

/// Each of the two lists of `c` names an entity at most once; the same wall
/// may still be named once at the start and once at the end.
pub open spec fn lists_single(c: ConnView) -> bool {
    list_single(c.start) && list_single(c.end)
}

/// Walls have distinct entities, each list of a wall names another wall at
/// most once, and both walls of every connection agree on it.
pub open spec fn lists_consistent(lot: Seq<LotWallView>) -> bool {
    &&& entities_unique(lot)
    &&& forall|i: int| 0 <= i < lot.len() ==> lists_single(#[trigger] lot[i].conns)
    &&& symmetric(lot)
}

/// `s` names `entity`.
pub open spec fn list_names(s: Seq<WallConnection>, entity: u64) -> bool {
    exists|x: int| 0 <= x < s.len() && #[trigger] s[x].wall_entity == entity
}

/// How many of the two lists of `c` name `entity`.
pub open spec fn lists_naming(c: ConnView, entity: u64) -> int {
    (if list_names(c.start, entity) { 1int } else { 0int }) + (if list_names(c.end, entity) {
        1int
    } else {
        0int
    })
}

/// How many times `x` occurs in `s`.
pub open spec fn occurrences(s: Seq<u64>, x: u64) -> nat
    decreases s.len(),
{
    if s.len() == 0 {
        0
    } else {
        occurrences(s.drop_last(), x) + if s.last() == x { 1nat } else { 0nat }
    }
}

proof fn lemma_list_remove(s: Seq<WallConnection>, i: int)
    requires
        list_single(s),
        0 <= i < s.len(),
    ensures
        list_single(s.remove(i)),
        !list_names(s.remove(i), s[i].wall_entity),
        forall|e: u64, kind: PointKind|
            e != s[i].wall_entity ==> (#[trigger] has_link(s.remove(i), e, kind) <==> has_link(s, e, kind)),
        forall|e: u64| #[trigger] list_names(s.remove(i), e) ==> list_names(s, e),
{
    let d = s.remove(i);
    let src = |x: int| if x < i { x } else { x + 1 };
    assert forall|x: int| 0 <= x < d.len() implies #[trigger] d[x] == s[src(x)] && src(x) != i by {
        lemma_remove_index(s, i, x);
    }
    assert forall|x: int, y: int| 0 <= x < y < d.len() implies #[trigger] d[x].wall_entity != #[trigger] d[y].wall_entity by {
        assert(d[x] == s[src(x)] && d[y] == s[src(y)]);
    }
    assert forall|x: int| 0 <= x < d.len() implies #[trigger] d[x].wall_entity != s[i].wall_entity by {
        assert(d[x] == s[src(x)]);
        if src(x) < i {} else {}
    }
    assert forall|e: u64, kind: PointKind|
        e != s[i].wall_entity implies (#[trigger] has_link(d, e, kind) <==> has_link(s, e, kind)) by {
        if has_link(d, e, kind) {
            let x = choose|x: int| 0 <= x < d.len() && #[trigger] d[x].wall_entity == e && d[x].point_kind == kind;
            assert(d[x] == s[src(x)]);
        }
        if has_link(s, e, kind) {
            let y = choose|y: int| 0 <= y < s.len() && #[trigger] s[y].wall_entity == e && s[y].point_kind == kind;
            assert(y != i);
            let x = if y < i { y } else { y - 1 };
            assert(d[x] == s[y]);
        }
    }
    assert forall|e: u64| #[trigger] list_names(d, e) implies list_names(s, e) by {
        let x = choose|x: int| 0 <= x < d.len() && #[trigger] d[x].wall_entity == e;
        assert(d[x] == s[src(x)]);
    }
}

/// What dropping the connection to `entity` does to connections whose lists
/// each name a wall at most once: one fewer list names `entity`, if any did.
proof fn lemma_without_lists(c: ConnView, entity: u64)
    requires
        lists_single(c),
    ensures
        lists_single(c.without(entity)),
        lists_naming(c.without(entity), entity) == if lists_naming(c, entity) > 0 {
            lists_naming(c, entity) - 1
        } else {
            0
        },
        forall|k: PointKind, e: u64, kind: PointKind|
            e != entity ==> (#[trigger] has_link(c.without(entity).at(k), e, kind) <==> has_link(
                c.at(k),
                e,
                kind,
            )),
        forall|e: u64| #[trigger] mentions(c.without(entity), e) ==> mentions(c, e),
{
    lemma_first_index(c.start, entity);
    lemma_first_index(c.end, entity);
    let d = c.without(entity);
    match c.position(entity) {
        None => {
            assert(d == c);
            assert(!list_names(c.start, entity));
            assert(!list_names(c.end, entity));
        },
        Some((k0, i0)) => {
            if k0 == PointKind::Start {
                lemma_list_remove(c.start, i0);
                assert(d.start == c.start.remove(i0) && d.end == c.end);
                assert(list_names(c.start, entity)) by {
                    assert(c.start[i0].wall_entity == entity);
                }
                assert forall|k: PointKind, e: u64, kind: PointKind|
                    e != entity implies (#[trigger] has_link(d.at(k), e, kind) <==> has_link(c.at(k), e, kind)) by {
                    match k { PointKind::Start => {}, PointKind::End => {} }
                }
                assert forall|e: u64| #[trigger] mentions(d, e) implies mentions(c, e) by {
                    let (k, x) = choose|k: PointKind, x: int| 0 <= x < d.at(k).len() && #[trigger] d.at(k)[x].wall_entity == e;
                    match k {
                        PointKind::Start => {
                            assert(list_names(d.start, e));
                            let y = choose|y: int| 0 <= y < c.start.len() && #[trigger] c.start[y].wall_entity == e;
                            assert(c.at(PointKind::Start)[y].wall_entity == e);
                        },
                        PointKind::End => {
                            assert(c.at(PointKind::End)[x].wall_entity == e);
                        },
                    }
                }
            } else {
                lemma_list_remove(c.end, i0);
                assert(d.end == c.end.remove(i0) && d.start == c.start);
                assert(!list_names(c.start, entity));
                assert(list_names(c.end, entity)) by {
                    assert(c.end[i0].wall_entity == entity);
                }
                assert forall|k: PointKind, e: u64, kind: PointKind|
                    e != entity implies (#[trigger] has_link(d.at(k), e, kind) <==> has_link(c.at(k), e, kind)) by {
                    match k { PointKind::Start => {}, PointKind::End => {} }
                }
                assert forall|e: u64| #[trigger] mentions(d, e) implies mentions(c, e) by {
                    let (k, x) = choose|k: PointKind, x: int| 0 <= x < d.at(k).len() && #[trigger] d.at(k)[x].wall_entity == e;
                    match k {
                        PointKind::End => {
                            assert(list_names(d.end, e));
                            let y = choose|y: int| 0 <= y < c.end.len() && #[trigger] c.end[y].wall_entity == e;
                            assert(c.at(PointKind::End)[y].wall_entity == e);
                        },
                        PointKind::Start => {
                            assert(c.at(PointKind::Start)[x].wall_entity == e);
                        },
                    }
                }
            }
        },
    }
}

/// The first stage of an update, over the first `n` entities the changed wall
/// named: each wall loses one list naming the changed wall per time that the
/// changed wall named it, and nothing else.
proof fn lemma_unlink_lists(lot: Seq<LotWallView>, w: int, n: int)
    requires
        0 <= w < lot.len(),
        entities_unique(lot),
        forall|i: int| 0 <= i < lot.len() ==> lists_single(#[trigger] lot[i].conns),
        forall|a: int|
            0 <= a < lot[w].conns.entities().len() ==> lot_index(lot, #[trigger] lot[w].conns.entities()[a]) is Some,
        0 <= n <= lot[w].conns.entities().len(),
    ensures
        same_walls(
            unlink_all(
                lot.update(w, with_conns(lot[w], ConnView::empty())),
                lot[w].conns.entities().take(n),
                lot[w].entity,
            ),
            lot,
        ),
        unlink_all(
            lot.update(w, with_conns(lot[w], ConnView::empty())),
            lot[w].conns.entities().take(n),
            lot[w].entity,
        )[w].conns == ConnView::empty(),
        forall|j: int| 0 <= j < lot.len() && j != w ==> {
            let c = (#[trigger] unlink_all(
                lot.update(w, with_conns(lot[w], ConnView::empty())),
                lot[w].conns.entities().take(n),
                lot[w].entity,
            )[j]).conns;
            let o = occurrences(lot[w].conns.entities().take(n), lot[j].entity);
            &&& lists_single(c)
            &&& lists_naming(c, lot[w].entity) == if lists_naming(lot[j].conns, lot[w].entity) > o {
                lists_naming(lot[j].conns, lot[w].entity) - o
            } else {
                0
            }
            &&& forall|k: PointKind, e: u64, kind: PointKind|
                e != lot[w].entity ==> (#[trigger] has_link(c.at(k), e, kind) <==> has_link(
                    lot[j].conns.at(k),
                    e,
                    kind,
                ))
            &&& forall|e: u64| #[trigger] mentions(c, e) ==> mentions(lot[j].conns, e)
        },
    decreases n,
{
    let big_w = lot[w].entity;
    let targets = lot[w].conns.entities();
    let cleared = lot.update(w, with_conns(lot[w], ConnView::empty()));
    let st = unlink_all(cleared, targets.take(n), big_w);
    if n == 0 {
        assert(targets.take(0) =~= Seq::<u64>::empty());
        assert(st == cleared);
        assert forall|j: int| 0 <= j < lot.len() && j != w implies {
            let c = (#[trigger] st[j]).conns;
            let o = occurrences(targets.take(n), lot[j].entity);
            &&& lists_single(c)
            &&& lists_naming(c, big_w) == if lists_naming(lot[j].conns, big_w) > o {
                lists_naming(lot[j].conns, big_w) - o
            } else {
                0
            }
            &&& forall|k: PointKind, e: u64, kind: PointKind|
                e != big_w ==> (#[trigger] has_link(c.at(k), e, kind) <==> has_link(lot[j].conns.at(k), e, kind))
            &&& forall|e: u64| #[trigger] mentions(c, e) ==> mentions(lot[j].conns, e)
        } by {
            assert(st[j] == lot[j]);
            assert(occurrences(targets.take(n), lot[j].entity) == 0);
        }
    } else {
        lemma_unlink_lists(lot, w, n - 1);
        let prev = unlink_all(cleared, targets.take(n - 1), big_w);
        assert(targets.take(n).drop_last() =~= targets.take(n - 1));
        let t = targets[n - 1];
        assert(targets.take(n).last() == t);
        assert(st == unlink_one(prev, t, big_w));
        lemma_same_walls_index(prev, lot, t);
        lemma_lot_index(lot, t);
        let jt = lot_index(lot, t).unwrap();
        assert(lot_index(lot, targets[n - 1]) is Some);
        assert(st == prev.update(jt, with_conns(prev[jt], prev[jt].conns.without(big_w))));
        assert(same_walls(st, lot));
        assert(st[w].conns == ConnView::empty()) by {
            if jt == w {
                lemma_first_index(Seq::<WallConnection>::empty(), big_w);
                assert(ConnView::empty().position(big_w) is None);
            }
        }
        assert forall|j: int| 0 <= j < lot.len() && j != w implies {
            let c = (#[trigger] st[j]).conns;
            let o = occurrences(targets.take(n), lot[j].entity);
            &&& lists_single(c)
            &&& lists_naming(c, big_w) == if lists_naming(lot[j].conns, big_w) > o {
                lists_naming(lot[j].conns, big_w) - o
            } else {
                0
            }
            &&& forall|k: PointKind, e: u64, kind: PointKind|
                e != big_w ==> (#[trigger] has_link(c.at(k), e, kind) <==> has_link(lot[j].conns.at(k), e, kind))
            &&& forall|e: u64| #[trigger] mentions(c, e) ==> mentions(lot[j].conns, e)
        } by {
            let pc = prev[j].conns;
            assert(occurrences(targets.take(n), lot[j].entity) == occurrences(targets.take(n - 1), lot[j].entity)
                + if t == lot[j].entity { 1nat } else { 0nat });
            if j == jt {
                lemma_without_lists(pc, big_w);
            } else {
                assert(lot[j].entity != t) by {
                    if j < jt {} else {}
                }
                assert(st[j] == prev[j]);
            }
        }
    }
}

proof fn lemma_occurrences_concat(a: Seq<u64>, b: Seq<u64>, x: u64)
    ensures
        occurrences(a + b, x) == occurrences(a, x) + occurrences(b, x),
    decreases b.len(),
{
    if b.len() > 0 {
        assert((a + b).drop_last() =~= a + b.drop_last());
        lemma_occurrences_concat(a, b.drop_last(), x);
    } else {
        assert(a + b =~= a);
    }
}

proof fn lemma_occurrences_named(s: Seq<WallConnection>, e: u64)
    ensures
        list_names(s, e) ==> occurrences(s.map_values(|c: WallConnection| c.wall_entity), e) >= 1,
    decreases s.len(),
{
    if s.len() > 0 {
        let m = s.map_values(|c: WallConnection| c.wall_entity);
        assert(m.drop_last() =~= s.drop_last().map_values(|c: WallConnection| c.wall_entity));
        lemma_occurrences_named(s.drop_last(), e);
        if list_names(s, e) && s.last().wall_entity != e {
            let x = choose|x: int| 0 <= x < s.len() && #[trigger] s[x].wall_entity == e;
            assert(s.drop_last()[x].wall_entity == e);
        }
    }
}

/// In a lot with consistent links, the changed wall names each other wall at
/// least as many times as that wall has lists naming the changed wall.
proof fn lemma_targets_cover(lot: Seq<LotWallView>, w: int, j: int)
    requires
        lists_consistent(lot),
        0 <= w < lot.len(),
        0 <= j < lot.len(),
        j != w,
    ensures
        occurrences(lot[w].conns.entities(), lot[j].entity) >= lists_naming(lot[j].conns, lot[w].entity),
{
    let cw = lot[w].conns;
    let cj = lot[j].conns;
    let x = lot[j].entity;
    let big_w = lot[w].entity;
    let f = |c: WallConnection| c.wall_entity;
    assert(cw.entities() =~= cw.start.map_values(f) + cw.end.map_values(f));
    lemma_occurrences_concat(cw.start.map_values(f), cw.end.map_values(f), x);
    lemma_occurrences_named(cw.start, x);
    lemma_occurrences_named(cw.end, x);
    assert(lists_single(cw));
    // Each list of `j` that names `w` is answered by a list of `w` naming `j`.
    if list_names(cj.start, big_w) {
        let a = choose|a: int| 0 <= a < cj.start.len() && #[trigger] cj.start[a].wall_entity == big_w;
        let kk1 = cj.start[a].point_kind;
        assert(cj.at(PointKind::Start)[a].wall_entity == big_w);
        assert(linked(lot[j], PointKind::Start, lot[w].entity, kk1));
        assert(linked(lot[w], kk1, lot[j].entity, PointKind::Start));
        let p = choose|p: int| 0 <= p < cw.at(kk1).len() && #[trigger] cw.at(kk1)[p].wall_entity == x && cw.at(kk1)[p].point_kind == PointKind::Start;
        if list_names(cj.end, big_w) {
            let b = choose|b: int| 0 <= b < cj.end.len() && #[trigger] cj.end[b].wall_entity == big_w;
            let kk2 = cj.end[b].point_kind;
            assert(cj.at(PointKind::End)[b].wall_entity == big_w);
            assert(linked(lot[j], PointKind::End, lot[w].entity, kk2));
            assert(linked(lot[w], kk2, lot[j].entity, PointKind::End));
            let q = choose|q: int| 0 <= q < cw.at(kk2).len() && #[trigger] cw.at(kk2)[q].wall_entity == x && cw.at(kk2)[q].point_kind == PointKind::End;
            assert(kk1 != kk2) by {
                if kk1 == kk2 {
                    assert(p != q);
                    assert(list_single(cw.at(kk1))) by {
                        match kk1 { PointKind::Start => {}, PointKind::End => {} }
                    }
                    if p < q {
                        assert(cw.at(kk1)[p].wall_entity != cw.at(kk1)[q].wall_entity);
                    } else {
                        assert(cw.at(kk1)[q].wall_entity != cw.at(kk1)[p].wall_entity);
                    }
                }
            }
            match kk1 {
                PointKind::Start => {
                    assert(list_names(cw.start, x));
                    assert(cw.at(kk2) == cw.end);
                    assert(list_names(cw.end, x));
                },
                PointKind::End => {
                    assert(list_names(cw.end, x));
                    assert(cw.at(kk2) == cw.start);
                    assert(list_names(cw.start, x));
                },
            }
        } else {
            match kk1 {
                PointKind::Start => { assert(list_names(cw.start, x)); },
                PointKind::End => { assert(list_names(cw.end, x)); },
            }
        }
    } else if list_names(cj.end, big_w) {
        let b = choose|b: int| 0 <= b < cj.end.len() && #[trigger] cj.end[b].wall_entity == big_w;
        let kk2 = cj.end[b].point_kind;
        assert(cj.at(PointKind::End)[b].wall_entity == big_w);
        assert(linked(lot[j], PointKind::End, lot[w].entity, kk2));
        assert(linked(lot[w], kk2, lot[j].entity, PointKind::End));
        let q = choose|q: int| 0 <= q < cw.at(kk2).len() && #[trigger] cw.at(kk2)[q].wall_entity == x && cw.at(kk2)[q].point_kind == PointKind::End;
        match kk2 {
            PointKind::Start => { assert(list_names(cw.start, x)); },
            PointKind::End => { assert(list_names(cw.end, x)); },
        }
    }
}

proof fn lemma_single_lists(c: ConnView)
    requires
        single_links(c),
    ensures
        lists_single(c),
{
    assert forall|x: int, y: int| 0 <= x < y < c.start.len() implies #[trigger] c.start[x].wall_entity
        != #[trigger] c.start[y].wall_entity by {
        assert(c.at(PointKind::Start)[x].wall_entity != c.at(PointKind::Start)[y].wall_entity);
    }
    assert forall|x: int, y: int| 0 <= x < y < c.end.len() implies #[trigger] c.end[x].wall_entity
        != #[trigger] c.end[y].wall_entity by {
        assert(c.at(PointKind::End)[x].wall_entity != c.at(PointKind::End)[y].wall_entity);
    }
}

proof fn lemma_push_lists(c: ConnView, k: PointKind, conn: WallConnection)
    requires
        lists_single(c),
        !mentions(c, conn.wall_entity),
    ensures
        lists_single(c.push(k, conn)),
{
    let d = c.push(k, conn);
    let s = c.at(k);
    assert(list_single(s)) by {
        match k { PointKind::Start => {}, PointKind::End => {} }
    }
    let t = s.push(conn);
    assert forall|x: int, y: int| 0 <= x < y < t.len() implies #[trigger] t[x].wall_entity != #[trigger] t[y].wall_entity by {
        assert(t[x] == s[x]);
        if y < s.len() {
            assert(t[y] == s[y]);
        } else {
            assert(t[y] == conn);
            assert(c.at(k)[x].wall_entity != conn.wall_entity);
        }
    }
    match k {
        PointKind::Start => { assert(d.start == t && d.end == c.end); },
        PointKind::End => { assert(d.end == t && d.start == c.start); },
    }
}

/// The stages of an update on a lot whose lists each name a wall at most once.
proof fn lemma_lists_stages(lot: Seq<LotWallView>, w: int)
    requires
        lists_consistent(lot),
        0 <= w < lot.len(),
        forall|k: PointKind, x: int|
            0 <= x < lot[w].conns.at(k).len() ==> lot_index(lot, #[trigger] lot[w].conns.at(k)[x].wall_entity) is Some,
    ensures
        same_walls(update_spec(lot, w), lot),
        update_spec(lot, w)[w].conns == stage_linked(lot, w).1,
        lists_single(stage_linked(lot, w).1),
        forall|k: PointKind, e: u64, kind: PointKind|
            #[trigger] has_link(stage_linked(lot, w).1.at(k), e, kind) <==> !lot[w].wall.is_point()
                && exists|j: int|
                0 <= j < lot.len() && #[trigger] lot[j].entity == e && e != lot[w].entity && link(
                    lot[w].wall,
                    lot[j].wall,
                ) == Some((k, kind)),
        forall|i: int, k: PointKind, e: u64, kind: PointKind|
            0 <= i < lot.len() && i != w ==> (#[trigger] has_link(
                update_spec(lot, w)[i].conns.at(k),
                e,
                kind,
            ) <==> (e != lot[w].entity && has_link(lot[i].conns.at(k), e, kind)) || (e
                == lot[w].entity && !lot[w].wall.is_point() && link(lot[w].wall, lot[i].wall) == Some(
                (kind, k),
            ))),
        forall|i: int| 0 <= i < lot.len() && i != w ==> lists_single(#[trigger] update_spec(lot, w)[i].conns),
{
    let me = lot[w];
    let big_w = me.entity;
    let targets = me.conns.entities();
    lemma_entities(me.conns);
    assert forall|a: int| 0 <= a < targets.len() implies lot_index(lot, #[trigger] targets[a]) is Some by {
        assert(targets.contains(targets[a]));
        let (k, x) = choose|k: PointKind, x: int| 0 <= x < me.conns.at(k).len() && #[trigger] me.conns.at(k)[x].wall_entity == targets[a];
        assert(lot[w].conns.at(k)[x].wall_entity == targets[a]);
    }
    lemma_unlink_lists(lot, w, targets.len() as int);
    assert(targets.take(targets.len() as int) =~= targets);
    let unlinked = stage_unlinked(lot, w);
    assert(unlinked == unlink_all(lot.update(w, with_conns(lot[w], ConnView::empty())), targets.take(targets.len() as int), big_w));
    assert forall|j: int| 0 <= j < lot.len() && j != w implies !mentions(#[trigger] unlinked[j].conns, big_w) by {
        lemma_targets_cover(lot, w, j);
        let c = unlinked[j].conns;
        assert(lists_naming(c, big_w) == 0);
        if mentions(c, big_w) {
            let (k, x) = choose|k: PointKind, x: int| 0 <= x < c.at(k).len() && #[trigger] c.at(k)[x].wall_entity == big_w;
            match k {
                PointKind::Start => { assert(c.start[x].wall_entity == big_w); assert(list_names(c.start, big_w)); },
                PointKind::End => { assert(c.end[x].wall_entity == big_w); assert(list_names(c.end, big_w)); },
            }
        }
    }
    let (linked_lot, mine) = stage_linked(lot, w);
    let f = update_spec(lot, w);
    lemma_stages(lot, w);
    assert(entities_unique(unlinked));
    if !me.wall.is_point() {
        lemma_scan(unlinked, big_w, me.wall, unlinked.len());
        lemma_single_lists(mine);
        assert forall|k: PointKind, e: u64, kind: PointKind|
            #[trigger] has_link(mine.at(k), e, kind) <==> !lot[w].wall.is_point() && exists|j: int|
                0 <= j < lot.len() && #[trigger] lot[j].entity == e && e != lot[w].entity && link(
                    lot[w].wall,
                    lot[j].wall,
                ) == Some((k, kind)) by {
            if exists|j: int| 0 <= j < lot.len() && #[trigger] lot[j].entity == e && e != lot[w].entity && link(lot[w].wall, lot[j].wall) == Some((k, kind)) {
                let j = choose|j: int| 0 <= j < lot.len() && #[trigger] lot[j].entity == e && e != lot[w].entity && link(lot[w].wall, lot[j].wall) == Some((k, kind));
                assert(unlinked[j].entity == e && unlinked[j].wall == lot[j].wall);
            }
            if has_link(mine.at(k), e, kind) {
                let j = choose|j: int| 0 <= j < unlinked.len() && #[trigger] unlinked[j].entity == e && e != big_w && link(me.wall, unlinked[j].wall) == Some((k, kind));
                assert(lot[j].entity == e && unlinked[j].wall == lot[j].wall);
            }
        }
    } else {
        assert forall|k: PointKind, e: u64, kind: PointKind| !#[trigger] has_link(mine.at(k), e, kind) by {
            match k { PointKind::Start => {}, PointKind::End => {} }
        }
        assert(lists_single(mine));
    }
    assert forall|i: int| 0 <= i < lot.len() && i != w implies (#[trigger] linked_lot[i]).conns == if !lot[w].wall.is_point()
            && link(lot[w].wall, lot[i].wall) is Some {
            unlinked[i].conns.push(
                link(lot[w].wall, lot[i].wall).unwrap().1,
                WallConnection {
                    wall_entity: lot[w].entity,
                    point_kind: link(lot[w].wall, lot[i].wall).unwrap().0,
                    wall: lot[w].wall,
                },
            )
        } else {
            unlinked[i].conns
        } by {
        assert(unlinked[i].entity != big_w) by {
            if i < w {} else {}
        }
    }
    assert forall|i: int, k: PointKind, e: u64, kind: PointKind|
        0 <= i < lot.len() && i != w implies (#[trigger] has_link(f[i].conns.at(k), e, kind) <==> (e
            != lot[w].entity && has_link(lot[i].conns.at(k), e, kind)) || (e == lot[w].entity
            && !lot[w].wall.is_point() && link(lot[w].wall, lot[i].wall) == Some((kind, k)))) by {
        assert(f[i] == linked_lot[i]);
        assert(!mentions(unlinked[i].conns, big_w));
        if e == big_w && has_link(unlinked[i].conns.at(k), e, kind) {
            let x = choose|x: int| 0 <= x < unlinked[i].conns.at(k).len() && #[trigger] unlinked[i].conns.at(k)[x].wall_entity == e && unlinked[i].conns.at(k)[x].point_kind == kind;
            assert(mentions(unlinked[i].conns, big_w));
        }
        if !me.wall.is_point() && link(me.wall, lot[i].wall) is Some {
            let (kw, ki) = link(me.wall, lot[i].wall).unwrap();
            let conn = WallConnection { wall_entity: big_w, point_kind: kw, wall: me.wall };
            lemma_push(unlinked[i].conns, ki, conn);
        }
    }
    assert forall|i: int| 0 <= i < lot.len() && i != w implies lists_single(#[trigger] f[i].conns) by {
        assert(f[i] == linked_lot[i]);
        if !me.wall.is_point() && link(me.wall, lot[i].wall) is Some {
            let (kw, ki) = link(me.wall, lot[i].wall).unwrap();
            let conn = WallConnection { wall_entity: big_w, point_kind: kw, wall: me.wall };
            lemma_push_lists(unlinked[i].conns, ki, conn);
        }
    }
}

/// Rebuilding the connections of a changed wall adds and removes every
/// connection on both walls together: when walls have distinct entities, each
/// list of a wall names another wall at most once, and both walls of every
/// connection agree on it, all three still hold afterwards. Afterwards the
/// changed wall is connected to exactly the other walls that it meets (none if
/// it has zero length), and the connections between the other walls are as
/// they were. The changed wall's connections must name walls of the lot, as
/// the update looks each of them up; nothing is asked of the other walls.
pub proof fn lemma_update_connections_lists(lot: Seq<LotWallView>, w: int)
    requires
        lists_consistent(lot),
        0 <= w < lot.len(),
        forall|k: PointKind, x: int|
            0 <= x < lot[w].conns.at(k).len() ==> lot_index(lot, #[trigger] lot[w].conns.at(k)[x].wall_entity) is Some,
    ensures
        lists_consistent(update_spec(lot, w)),
        same_walls(update_spec(lot, w), lot),
        forall|j: int, kw: PointKind, kj: PointKind|
            0 <= j < lot.len() && j != w ==> (#[trigger] linked(update_spec(lot, w)[w], kw, lot[j].entity, kj)
                <==> !lot[w].wall.is_point() && link(lot[w].wall, lot[j].wall) == Some((kw, kj))),
        forall|i: int, j: int, ki: PointKind, kj: PointKind|
            0 <= i < lot.len() && 0 <= j < lot.len() && i != w && j != w ==> (#[trigger] linked(
                update_spec(lot, w)[i],
                ki,
                lot[j].entity,
                kj,
            ) <==> linked(lot[i], ki, lot[j].entity, kj)),
{
    let f = update_spec(lot, w);
    let big_w = lot[w].entity;
    lemma_lists_stages(lot, w);
    assert(entities_unique(f));
    assert forall|i: int| 0 <= i < f.len() implies lists_single(#[trigger] f[i].conns) by {
        if i == w {} else {}
    }
    assert forall|j: int, kw: PointKind, kj: PointKind|
        0 <= j < lot.len() && j != w implies (#[trigger] linked(f[w], kw, lot[j].entity, kj)
            <==> !lot[w].wall.is_point() && link(lot[w].wall, lot[j].wall) == Some((kw, kj))) by {
        assert(lot[j].entity != big_w) by {
            if j < w {} else {}
        }
        if linked(f[w], kw, lot[j].entity, kj) {
            let j2 = choose|j2: int| 0 <= j2 < lot.len() && #[trigger] lot[j2].entity == lot[j].entity && lot[j].entity != lot[w].entity && link(lot[w].wall, lot[j2].wall) == Some((kw, kj));
            assert(j2 == j) by {
                if j2 < j {} else if j < j2 {}
            }
        }
    }
    assert(symmetric(f)) by {
        assert forall|i: int, j: int, ki: PointKind, kj: PointKind|
            0 <= i < f.len() && 0 <= j < f.len() implies (#[trigger] linked(f[i], ki, f[j].entity, kj)
                <==> #[trigger] linked(f[j], kj, f[i].entity, ki)) by {
            assert(f[i].entity == lot[i].entity && f[j].entity == lot[j].entity);
            if i != w && j != w {
                assert(lot[i].entity != big_w) by { if i < w {} else {} }
                assert(lot[j].entity != big_w) by { if j < w {} else {} }
                assert(linked(lot[i], ki, lot[j].entity, kj) <==> linked(lot[j], kj, lot[i].entity, ki));
            } else if i == w && j == w {
                if linked(f[w], ki, big_w, kj) {
                    let j2 = choose|j2: int| 0 <= j2 < lot.len() && #[trigger] lot[j2].entity == big_w && big_w != lot[w].entity && link(lot[w].wall, lot[j2].wall) == Some((ki, kj));
                }
                if linked(f[w], kj, big_w, ki) {
                    let j2 = choose|j2: int| 0 <= j2 < lot.len() && #[trigger] lot[j2].entity == big_w && big_w != lot[w].entity && link(lot[w].wall, lot[j2].wall) == Some((kj, ki));
                }
            } else if i == w {
                assert(lot[j].entity != big_w) by { if j < w {} else {} }
            } else {
                assert(lot[i].entity != big_w) by { if i < w {} else {} }
            }
        }
    }
    assert forall|i: int, j: int, ki: PointKind, kj: PointKind|
        0 <= i < lot.len() && 0 <= j < lot.len() && i != w && j != w implies (#[trigger] linked(f[i], ki, lot[j].entity, kj)
            <==> linked(lot[i], ki, lot[j].entity, kj)) by {
        assert(lot[j].entity != big_w) by { if j < w {} else {} }
    }
}

/// Dropping the connections to the despawned walls `removed` leaves no wall
/// naming any of them, and every other connection as it was, when no wall
/// names another wall twice.
pub proof fn lemma_cleanup_drops_removed(lot: Seq<LotWallView>, removed: Seq<u64>)
    requires
        forall|i: int| 0 <= i < lot.len() ==> single_links(#[trigger] lot[i].conns),
    ensures
        same_walls(cleanup_all(lot, removed), lot),
        forall|i: int| 0 <= i < lot.len() ==> single_links(#[trigger] cleanup_all(lot, removed)[i].conns),
        forall|i: int, e: u64|
            0 <= i < lot.len() && removed.contains(e) ==> !#[trigger] mentions(cleanup_all(lot, removed)[i].conns, e),
        forall|i: int, k: PointKind, e: u64, kind: PointKind|
            0 <= i < lot.len() && !removed.contains(e) ==> (#[trigger] has_link(
                cleanup_all(lot, removed)[i].conns.at(k),
                e,
                kind,
            ) <==> has_link(lot[i].conns.at(k), e, kind)),
    decreases removed.len(),
{
    if removed.len() > 0 {
        let rest = removed.drop_last();
        let last = removed.last();
        lemma_cleanup_drops_removed(lot, rest);
        let prev = cleanup_all(lot, rest);
        let f = cleanup_all(lot, removed);
        assert(f == cleanup_one(prev, last));
        assert forall|i: int| 0 <= i < lot.len() implies #[trigger] f[i] == with_conns(prev[i], prev[i].conns.without(last)) by {}
        assert forall|i: int| 0 <= i < lot.len() implies single_links(#[trigger] f[i].conns) by {
            lemma_without(prev[i].conns, last);
        }
        assert forall|i: int, e: u64|
            0 <= i < lot.len() && removed.contains(e) implies !#[trigger] mentions(f[i].conns, e) by {
            lemma_without(prev[i].conns, last);
            if e != last {
                let a = choose|a: int| 0 <= a < removed.len() && removed[a] == e;
                assert(rest[a] == e);
                assert(rest.contains(e));
            }
        }
        assert forall|i: int, k: PointKind, e: u64, kind: PointKind|
            0 <= i < lot.len() && !removed.contains(e) implies (#[trigger] has_link(f[i].conns.at(k), e, kind)
                <==> has_link(lot[i].conns.at(k), e, kind)) by {
            lemma_without(prev[i].conns, last);
            assert(removed[removed.len() - 1] == last);
            assert(e != last);
            assert(!rest.contains(e)) by {
                if rest.contains(e) {
                    let a = choose|a: int| 0 <= a < rest.len() && rest[a] == e;
                    assert(removed[a] == e);
                }
            }
        }
    }
}

} // verus!
