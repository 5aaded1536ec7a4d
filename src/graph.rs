//! Projection of the backbone area into a graph of nodes and weighted edges.
use std::collections::{BTreeMap, BTreeSet};
use vstd::prelude::*;

use crate::entry::{raw_weight, Entry, EntryType, EntryView};
use crate::topology::{
    area_index, empty_area, name_hash, router2id, AreaData, AreaView, RouterData, Topology,
    TopologyView,
};

verus! {

broadcast use vstd::std_specs::btree::group_btree_axioms;

/// An undirected edge, stored with `from <= to`.
#[derive(Clone, Copy, Debug, PartialEq, Eq, Structural)]
pub struct Edge {
    pub from: u64,
    pub to: u64,
    pub length: u16,
}

/// The length drawn for an edge of weight `w`.
pub open spec fn edge_length(w: u32) -> u16 {
    if w / 100 + 1 < 1000 {
        (w / 100 + 1) as u16
    } else {
        1000
    }
}

/// The edge between `a` and `b`, with its ends in order.
pub open spec fn canonical(a: u64, b: u64, length: u16) -> Edge {
    if a <= b {
        Edge { from: a, to: b, length }
    } else {
        Edge { from: b, to: a, length }
    }
}

/// The order of edges: by `from`, then `to`, then `length`.
pub open spec fn edge_lt(a: Edge, b: Edge) -> bool {
    a.from < b.from || (a.from == b.from && (a.to < b.to || (a.to == b.to && a.length
        < b.length)))
}

/// Edges in strictly increasing order, hence without repeats.
pub open spec fn sorted_edges(s: Seq<Edge>) -> bool {
    forall|i: int, j: int| 0 <= i < j < s.len() ==> edge_lt(#[trigger] s[i], #[trigger] s[j])
}

/// The length of an edge drawn for an adjacency of weight `w`.
pub fn length_of(w: u32) -> (r: u16)
    ensures
        r == edge_length(w),
        1 <= r <= 1000,
{
    let l = w / 100 + 1;
    if l < 1000 {
        l as u16
    } else {
        1000
    }
}

/// The edge between `a` and `b`, with its ends in order.
pub fn make_edge(a: u64, b: u64, length: u16) -> (r: Edge)
    ensures
        r == canonical(a, b, length),
        r.from <= r.to,
{
    if a <= b {
        Edge { from: a, to: b, length }
    } else {
        Edge { from: b, to: a, length }
    }
}

fn edge_less(a: &Edge, b: &Edge) -> (r: bool)
    ensures
        r == edge_lt(*a, *b),
{
    a.from < b.from || (a.from == b.from && (a.to < b.to || (a.to == b.to && a.length
        < b.length)))
}

/// Adds `e` to a sorted list of edges unless it is there already.
pub fn insert_edge(v: &mut Vec<Edge>, e: Edge)
    requires
        sorted_edges(old(v)@),
    ensures
        sorted_edges(final(v)@),
        forall|x: Edge| final(v)@.contains(x) <==> (old(v)@.contains(x) || x == e),
{
    let mut p: usize = 0;
    while p < v.len() && edge_less(&v[p], &e)
        invariant
            p <= v.len(),
            forall|i: int| 0 <= i < p ==> edge_lt(#[trigger] v@[i], e),
        decreases v.len() - p,
    {
        p = p + 1;
    }
    if p < v.len() && v[p] == e {
        assert(v@[p as int] == e);
        return;
    }
    let ghost ov = v@;
    proof {
        assert forall|k: int| p <= k < ov.len() implies edge_lt(e, #[trigger] ov[k]) by {
            assert(edge_lt(e, ov[p as int]));
        }
    }
    v.insert(p, e);
    proof {
        assert forall|x: Edge| v@.contains(x) <==> (ov.contains(x) || x == e) by {
            if x == e {
                assert(v@[p as int] == x);
            }
            if ov.contains(x) {
                let i = choose|i: int| 0 <= i < ov.len() && ov[i] == x;
                if i < p {
                    assert(v@[i] == x);
                } else {
                    assert(v@[i + 1] == x);
                }
            }
            if v@.contains(x) {
                let i = choose|i: int| 0 <= i < v@.len() && v@[i] == x;
                if i < p {
                    assert(ov[i] == x);
                } else if i > p {
                    assert(ov[i - 1] == x);
                }
            }
        }
        assert(ov == old(v)@);
        assert(forall|x: Edge| #[trigger] v@.contains(x) <==> (old(v)@.contains(x) || x == e));
    }
}

/// The backbone area `0.0.0.0`, or an empty area when the dump has none.
pub open spec fn backbone(t: TopologyView) -> AreaView {
    let i = area_index(t.areas, "0.0.0.0"@);
    if i >= 0 {
        t.areas[i].1
    } else {
        empty_area()
    }
}

/// The edge that a router's adjacency line `x` gives.
pub open spec fn entry_edge(rid: u64, x: EntryView) -> Edge {
    canonical(rid, name_hash(x.obj), edge_length(raw_weight(x.metric)))
}

/// `e` joins a router of `a` to the object of one of its adjacency lines.
pub open spec fn is_router_edge(a: AreaView, e: Edge) -> bool {
    exists|rid: u64, x: EntryView|
        #![trigger a.routers[rid].entries.contains(x), entry_edge(rid, x)]
        a.routers.contains_key(rid) && a.routers[rid].entries.contains(x) && e == entry_edge(rid, x)
}

/// `e` joins a network of `a` to a member or to its designated router.
pub open spec fn is_network_edge(a: AreaView, e: Edge) -> bool {
    exists|nid: u64, m: u64|
        #![trigger canonical(nid, m, 0)]
        a.networks.contains_key(nid) && (a.networks[nid].routers.contains(m) || m
            == a.networks[nid].dr) && e == canonical(nid, m, 0)
}

/// The edges that the projection of area `a` holds.
pub open spec fn is_graph_edge(a: AreaView, e: Edge) -> bool {
    is_router_edge(a, e) || is_network_edge(a, e)
}

fn add_router_edges(edges: &mut Vec<Edge>, rid: u64, rd: &RouterData)
    requires
        sorted_edges(old(edges)@),
    ensures
        sorted_edges(final(edges)@),
        forall|e: Edge|
            final(edges)@.contains(e) <==> (old(edges)@.contains(e) || exists|x: EntryView|
                rd@.entries.contains(x) && e == #[trigger] entry_edge(rid, x)),
{
    let mut j: usize = 0;
    while j < rd.entries.len()
        invariant
            j <= rd.entries.len(),
            sorted_edges(edges@),
            forall|e: Edge|
                edges@.contains(e) <==> (old(edges)@.contains(e) || exists|q: int|
                    0 <= q < j && e == #[trigger] entry_edge(rid, rd.entries@[q]@)),
        decreases rd.entries.len() - j,
    {
        let en = &rd.entries[j];
        let e = make_edge(rid, router2id(en.obj.as_str()), length_of(en.metric.weight()));
        insert_edge(edges, e);
        proof {
            assert(e == entry_edge(rid, rd.entries@[j as int]@));
            assert forall|x: Edge|
                edges@.contains(x) <==> (old(edges)@.contains(x) || exists|q: int|
                    0 <= q < j + 1 && x == #[trigger] entry_edge(rid, rd.entries@[q]@)) by {
                if exists|q: int| 0 <= q < j + 1 && x == #[trigger] entry_edge(rid, rd.entries@[q]@) {
                    let q = choose|q: int| 0 <= q < j + 1 && x == #[trigger] entry_edge(rid, rd.entries@[q]@);
                    if q < j {
                        assert(exists|q: int| 0 <= q < j && x == #[trigger] entry_edge(rid, rd.entries@[q]@));
                    }
                }
            }
        }
        j = j + 1;
    }
    proof {
        assert forall|e: Edge|
            final(edges)@.contains(e) <==> (old(edges)@.contains(e) || exists|x: EntryView|
                rd@.entries.contains(x) && e == #[trigger] entry_edge(rid, x)) by {
            if exists|x: EntryView| rd@.entries.contains(x) && e == #[trigger] entry_edge(rid, x) {
                let x = choose|x: EntryView| rd@.entries.contains(x) && e == #[trigger] entry_edge(rid, x);
                let q = choose|q: int| 0 <= q < rd.entries@.len() && rd.entries@[q]@ == x;
                assert(e == entry_edge(rid, rd.entries@[q]@));
            }
            if exists|q: int| 0 <= q < j && e == #[trigger] entry_edge(rid, rd.entries@[q]@) {
                let q = choose|q: int| 0 <= q < j && e == #[trigger] entry_edge(rid, rd.entries@[q]@);
                assert(rd@.entries.contains(rd.entries@[q]@));
            }
        }
    }
}

/// The edge from network `nid` to router `m`.
pub open spec fn member_edge(nid: u64, m: u64) -> Edge {
    canonical(nid, m, 0)
}

fn add_network_edges(edges: &mut Vec<Edge>, nid: u64, nd: &crate::topology::NetworkData)
    requires
        sorted_edges(old(edges)@),
    ensures
        sorted_edges(final(edges)@),
        forall|e: Edge|
            final(edges)@.contains(e) <==> (old(edges)@.contains(e) || exists|m: u64|
                (nd@.routers.contains(m) || m == nd.dr) && e == #[trigger] member_edge(nid, m)),
{
    let ghost start = edges@;
    let ghost mut seen: Seq<u64> = seq![];
    for m in it: nd.routers.iter()
        invariant
            start == old(edges)@,
            sorted_edges(edges@),
            it.seq().unref().to_set() == nd.routers@,
            seen == it.seq().take(it.index() as int).unref(),
            it.index() == it.seq().len() ==> seen.to_set() == nd.routers@,
            forall|e: Edge|
                #[trigger] edges@.contains(e) <==> (old(edges)@.contains(e) || exists|q: int|
                    0 <= q < seen.len() && e == #[trigger] member_edge(nid, seen[q])),
    {
        let ghost k = it.index();
        let ghost before = edges@;
        insert_edge(edges, make_edge(nid, *m, 0));
        proof {
            let s2 = seen.push(*m);
            assert(s2 =~= it.seq().take(k + 1).unref());
            if k + 1 == it.seq().len() {
                assert(it.seq().take(k + 1) =~= it.seq());
            }
            assert forall|e: Edge|
                #[trigger] edges@.contains(e) <==> (old(edges)@.contains(e) || exists|q: int|
                    0 <= q < s2.len() && e == #[trigger] member_edge(nid, s2[q])) by {
                assert(edges@.contains(e) <==> (before.contains(e) || e == member_edge(nid, *m)));
                assert(before.contains(e) <==> (old(edges)@.contains(e) || exists|q: int|
                    0 <= q < seen.len() && e == #[trigger] member_edge(nid, seen[q])));
                if e == member_edge(nid, *m) {
                    assert(s2[seen.len() as int] == *m);
                }
                if exists|q: int| 0 <= q < s2.len() && e == #[trigger] member_edge(nid, s2[q]) {
                    let q = choose|q: int| 0 <= q < s2.len() && e == #[trigger] member_edge(nid, s2[q]);
                    if q < seen.len() {
                        assert(seen[q] == s2[q]);
                    }
                }
                if exists|q: int| 0 <= q < seen.len() && e == #[trigger] member_edge(nid, seen[q]) {
                    let q = choose|q: int| 0 <= q < seen.len() && e == #[trigger] member_edge(nid, seen[q]);
                    assert(seen[q] == s2[q]);
                }
            }
            seen = s2;
        }
    }
    assert(seen.to_set() == nd.routers@);
    let ghost items = seen;
    let ghost before = edges@;
    insert_edge(edges, make_edge(nid, nd.dr, 0));
    proof {

        assert forall|e: Edge|
            #[trigger] edges@.contains(e) <==> (old(edges)@.contains(e) || exists|m: u64|
                (nd@.routers.contains(m) || m == nd.dr) && e == #[trigger] member_edge(nid, m)) by {
            assert(edges@.contains(e) <==> (before.contains(e) || e == member_edge(nid, nd.dr)));
            assert(before.contains(e) <==> (old(edges)@.contains(e) || exists|q: int|
                0 <= q < items.len() && e == #[trigger] member_edge(nid, items[q])));
            if exists|m: u64| (nd@.routers.contains(m) || m == nd.dr) && e == #[trigger] member_edge(nid, m) {
                let m = choose|m: u64| (nd@.routers.contains(m) || m == nd.dr) && e == #[trigger] member_edge(nid, m);
                if m != nd.dr {
                    assert(items.to_set().contains(m));
                    let q = choose|q: int| 0 <= q < items.len() && items[q] == m;
                    assert(e == member_edge(nid, items[q]));
                }
            }
            if exists|q: int| 0 <= q < items.len() && e == #[trigger] member_edge(nid, items[q]) {
                let q = choose|q: int| 0 <= q < items.len() && e == #[trigger] member_edge(nid, items[q]);
                assert(items.to_set().contains(items[q]));
            }
        }
    }
}

/// `e` comes from an adjacency line of one of the routers `ids` of `a`.
pub open spec fn edge_of_routers(a: AreaView, ids: Seq<u64>, e: Edge) -> bool {
    exists|q: int, x: EntryView|
        #![trigger a.routers[ids[q]].entries.contains(x), entry_edge(ids[q], x)]
        0 <= q < ids.len() && a.routers[ids[q]].entries.contains(x) && e == entry_edge(ids[q], x)
}

/// `e` joins one of the networks `ids` of `a` to a member or its designated router.
pub open spec fn edge_of_networks(a: AreaView, ids: Seq<u64>, e: Edge) -> bool {
    exists|q: int, m: u64|
        #![trigger member_edge(ids[q], m)]
        0 <= q < ids.len() && (a.networks[ids[q]].routers.contains(m) || m
            == a.networks[ids[q]].dr) && e == member_edge(ids[q], m)
}

/// The sorted edges of the projection of `area`.
fn area_edges(area: &AreaData) -> (r: Vec<Edge>)
    ensures
        sorted_edges(r@),
        forall|e: Edge| r@.contains(e) <==> is_graph_edge(area@, e),
{
    let mut edges: Vec<Edge> = Vec::new();
    let ghost a = area@;
    let ghost mut seen: Seq<u64> = seq![];
    for item in it: area.routers.iter()
        invariant
            a == area@,
            sorted_edges(edges@),
            forall|i: int|
                0 <= i < it.seq().len() ==> area.routers@.contains_key(*(#[trigger] it.seq()[i]).0)
                    && area.routers@[*it.seq()[i].0] == *it.seq()[i].1,
            forall|k: u64|
                #[trigger] area.routers@.contains_key(k) ==> it.seq().contains(
                    (&k, &area.routers@[k]),
                ),
            seen.len() == it.index(),
            forall|i: int| 0 <= i < seen.len() ==> seen[i] == *(#[trigger] it.seq()[i]).0,
            forall|i: int| 0 <= i < seen.len() ==> area.routers@.contains_key(#[trigger] seen[i]),
            it.index() == it.seq().len() ==> forall|k: u64|
                #[trigger] area.routers@.contains_key(k) ==> seen.contains(k),
            forall|e: Edge| #[trigger] edges@.contains(e) <==> edge_of_routers(a, seen, e),
    {
        let (rid, rd) = item;
        let ghost before = edges@;
        let ghost k = it.index();
        add_router_edges(&mut edges, *rid, rd);
        proof {
            let s2 = seen.push(*rid);
            assert(a.routers[*rid] == rd@);
            if k + 1 == it.seq().len() {
                assert forall|kk: u64| #[trigger] area.routers@.contains_key(kk) implies s2.contains(
                    kk,
                ) by {
                    assert(it.seq().contains((&kk, &area.routers@[kk])));
                    let i = choose|i: int| 0 <= i < it.seq().len() && it.seq()[i] == (&kk, &area.routers@[kk]);
                    assert(s2[i] == *it.seq()[i].0);
                }
            }
            assert forall|e: Edge| #[trigger] edges@.contains(e) <==> edge_of_routers(a, s2, e) by {
                assert(edges@.contains(e) <==> (before.contains(e) || exists|x: EntryView|
                    rd@.entries.contains(x) && e == #[trigger] entry_edge(*rid, x)));
                if !before.contains(e) && edges@.contains(e) {
                    let x = choose|x: EntryView| rd@.entries.contains(x) && e == #[trigger] entry_edge(*rid, x);
                    assert(s2[seen.len() as int] == *rid);
                    assert(a.routers[s2[seen.len() as int]].entries.contains(x));
                }
                if edge_of_routers(a, seen, e) {
                    let (q, x) = choose|q: int, x: EntryView|
                        0 <= q < seen.len() && a.routers[seen[q]].entries.contains(x) && e
                            == entry_edge(seen[q], x);
                    assert(s2[q] == seen[q]);
                }
                if edge_of_routers(a, s2, e) {
                    let (q, x) = choose|q: int, x: EntryView|
                        0 <= q < s2.len() && a.routers[s2[q]].entries.contains(x) && e
                            == entry_edge(s2[q], x);
                    if q < seen.len() {
                        assert(s2[q] == seen[q]);
                    } else {
                        assert(rd@.entries.contains(x));
                    }
                }
            }
            seen = s2;
        }
    }
    let ghost rseen = seen;
    let ghost mut nseen: Seq<u64> = seq![];
    for item in it: area.networks.iter()
        invariant
            a == area@,
            sorted_edges(edges@),
            forall|i: int|
                0 <= i < it.seq().len() ==> area.networks@.contains_key(*(#[trigger] it.seq()[i]).0)
                    && area.networks@[*it.seq()[i].0] == *it.seq()[i].1,
            forall|k: u64|
                #[trigger] area.networks@.contains_key(k) ==> it.seq().contains(
                    (&k, &area.networks@[k]),
                ),
            nseen.len() == it.index(),
            forall|i: int| 0 <= i < nseen.len() ==> nseen[i] == *(#[trigger] it.seq()[i]).0,
            forall|i: int| 0 <= i < nseen.len() ==> area.networks@.contains_key(#[trigger] nseen[i]),
            it.index() == it.seq().len() ==> forall|k: u64|
                #[trigger] area.networks@.contains_key(k) ==> nseen.contains(k),
            forall|e: Edge|
                #[trigger] edges@.contains(e) <==> (edge_of_routers(a, rseen, e) || edge_of_networks(
                    a,
                    nseen,
                    e,
                )),
    {
        let (nid, nd) = item;
        let ghost before = edges@;
        let ghost k = it.index();
        add_network_edges(&mut edges, *nid, nd);
        proof {
            let s2 = nseen.push(*nid);
            assert(a.networks[*nid] == nd@);
            if k + 1 == it.seq().len() {
                assert forall|kk: u64| #[trigger] area.networks@.contains_key(kk) implies s2.contains(
                    kk,
                ) by {
                    assert(it.seq().contains((&kk, &area.networks@[kk])));
                    let i = choose|i: int| 0 <= i < it.seq().len() && it.seq()[i] == (&kk, &area.networks@[kk]);
                    assert(s2[i] == *it.seq()[i].0);
                }
            }
            assert forall|e: Edge|
                #[trigger] edges@.contains(e) <==> (edge_of_routers(a, rseen, e) || edge_of_networks(
                    a,
                    s2,
                    e,
                )) by {
                assert(edges@.contains(e) <==> (before.contains(e) || exists|m: u64|
                    (nd@.routers.contains(m) || m == nd.dr) && e == #[trigger] member_edge(*nid, m)));
                if !before.contains(e) && edges@.contains(e) {
                    let m = choose|m: u64|
                        (nd@.routers.contains(m) || m == nd.dr) && e == #[trigger] member_edge(*nid, m);
                    assert(s2[nseen.len() as int] == *nid);
                    assert(e == member_edge(s2[nseen.len() as int], m));
                }
                if edge_of_networks(a, nseen, e) {
                    let (q, m) = choose|q: int, m: u64|
                        0 <= q < nseen.len() && (a.networks[nseen[q]].routers.contains(m) || m
                            == a.networks[nseen[q]].dr) && e == member_edge(nseen[q], m);
                    assert(s2[q] == nseen[q]);
                    assert(e == member_edge(s2[q], m));
                }
                if edge_of_networks(a, s2, e) {
                    let (q, m) = choose|q: int, m: u64|
                        0 <= q < s2.len() && (a.networks[s2[q]].routers.contains(m) || m
                            == a.networks[s2[q]].dr) && e == member_edge(s2[q], m);
                    if q < nseen.len() {
                        assert(s2[q] == nseen[q]);
                        assert(e == member_edge(nseen[q], m));
                    }
                }
            }
            nseen = s2;
        }
    }
    proof {
        assert forall|e: Edge| #[trigger] edges@.contains(e) <==> is_graph_edge(a, e) by {
            if edge_of_routers(a, rseen, e) {
                let (q, x) = choose|q: int, x: EntryView|
                    0 <= q < rseen.len() && a.routers[rseen[q]].entries.contains(x) && e
                        == entry_edge(rseen[q], x);
                assert(a.routers.contains_key(rseen[q]));
            }
            if edge_of_networks(a, nseen, e) {
                let (q, m) = choose|q: int, m: u64|
                    0 <= q < nseen.len() && (a.networks[nseen[q]].routers.contains(m) || m
                        == a.networks[nseen[q]].dr) && e == member_edge(nseen[q], m);
                assert(a.networks.contains_key(nseen[q]));
                assert(e == canonical(nseen[q], m, 0));
            }
            if is_router_edge(a, e) {
                let (rid, x) = choose|rid: u64, x: EntryView|
                    a.routers.contains_key(rid) && a.routers[rid].entries.contains(x) && e
                        == entry_edge(rid, x);
                assert(area.routers@.contains_key(rid));
                let q = choose|q: int| 0 <= q < rseen.len() && rseen[q] == rid;
                assert(a.routers[rseen[q]].entries.contains(x) && e == entry_edge(rseen[q], x));
            }
            if is_network_edge(a, e) {
                let (nid, m) = choose|nid: u64, m: u64|
                    a.networks.contains_key(nid) && (a.networks[nid].routers.contains(m) || m
                        == a.networks[nid].dr) && e == canonical(nid, m, 0);
                assert(area.networks@.contains_key(nid));
                let q = choose|q: int| 0 <= q < nseen.len() && nseen[q] == nid;
                assert(e == member_edge(nseen[q], m));
            }
        }
    }
    edges
}

/// The decimal digits of `n`.
pub open spec fn decimal_text(n: nat) -> Seq<char>
    decreases n,
{
    if n < 10 {
        seq![((48 + n) as char)]
    } else {
        decimal_text(n / 10).push(((48 + n % 10) as char))
    }
}

/// Relies on `Display` for `u64` (through `ToString`): the decimal digits, without sign or padding.
#[verifier::external_body]
fn decimal(n: u64) -> (r: String)
    ensures
        r@ == decimal_text(n as nat),
{
    n.to_string()
}

/// A value in the details of a node.
#[derive(Clone, Debug, PartialEq)]
pub enum DetailValue {
    Number(u64),
    Texts(Vec<String>),
}

pub enum DetailView {
    Number(u64),
    Texts(Seq<Seq<char>>),
}

impl DetailValue {
    pub open spec fn view(&self) -> DetailView {
        match self {
            DetailValue::Number(n) => DetailView::Number(*n),
            DetailValue::Texts(v) => DetailView::Texts(v@.map_values(|t: String| t@)),
        }
    }
}

/// Named attributes of a node, in order.
#[derive(Clone, Debug, PartialEq)]
pub struct Details {
    pub items: Vec<(String, DetailValue)>,
}

impl Details {
    pub open spec fn view(&self) -> Seq<(Seq<char>, DetailView)> {
        self.items@.map_values(|p: (String, DetailValue)| (p.0@, p.1@))
    }
}

/// The name under which the entries of a type are listed.
pub open spec fn type_heading(t: EntryType) -> Seq<char> {
    match t {
        EntryType::External => "External"@,
        EntryType::Router => "Router"@,
        EntryType::StubNet => "StubNet"@,
        EntryType::Network => "Network"@,
        EntryType::XNetwork => "XNetwork"@,
        EntryType::XRouter => "XRouter"@,
    }
}

/// How a metric is written: `metric <n>` or `metric2 <n>`.
pub open spec fn metric_text(m: crate::entry::Metric) -> Seq<char> {
    match m {
        crate::entry::Metric::Internal(x) => "metric "@ + decimal_text(x as nat),
        crate::entry::Metric::External(x) => "metric2 "@ + decimal_text(x as nat),
    }
}

/// How an entry is listed: `<object> <metric>`.
pub open spec fn entry_text(e: EntryView) -> Seq<char> {
    e.obj + " "@ + metric_text(e.metric)
}

/// The entries grouped by type, in order, each as its text.
pub open spec fn entry_groups(es: Seq<EntryView>) -> Seq<(EntryType, Seq<Seq<char>>)>
    decreases es.len(),
{
    if es.len() == 0 {
        seq![]
    } else {
        let d = entry_groups(es.drop_last());
        let e = es.last();
        if d.len() > 0 && d.last().0 == e.typ {
            d.update(d.len() - 1, (e.typ, d.last().1.push(entry_text(e))))
        } else {
            d.push((e.typ, seq![entry_text(e)]))
        }
    }
}

/// The details of a router: its distance, then its entries listed under their type.
pub open spec fn router_details(distance: u8, es: Seq<EntryView>) -> Seq<(Seq<char>, DetailView)> {
    seq![("distance"@, DetailView::Number(distance as u64))] + entry_groups(es).map_values(
        |g: (EntryType, Seq<Seq<char>>)| (type_heading(g.0), DetailView::Texts(g.1)),
    )
}

fn type_label(t: EntryType) -> (r: String)
    ensures
        r@ == type_heading(t),
{
    let s = match t {
        EntryType::External => "External",
        EntryType::Router => "Router",
        EntryType::StubNet => "StubNet",
        EntryType::Network => "Network",
        EntryType::XNetwork => "XNetwork",
        EntryType::XRouter => "XRouter",
    };
    s.to_owned()
}

/// How an entry is listed: `<object> metric <n>` or `<object> metric2 <n>`.
pub fn describe_entry(e: &Entry) -> (r: String)
    ensures
        r@ == entry_text(e@),
{
    let mut t = e.obj.clone();
    t.append(" ");
    match e.metric {
        crate::entry::Metric::Internal(x) => {
            t.append("metric ");
            let d = decimal(x as u64);
            t.append(d.as_str());
        },
        crate::entry::Metric::External(x) => {
            t.append("metric2 ");
            let d = decimal(x as u64);
            t.append(d.as_str());
        },
    }
    t
}

/// The values of a sequence of entries.
pub open spec fn entry_views(es: Seq<Entry>) -> Seq<EntryView> {
    es.map_values(|e: Entry| e@)
}

/// The values of entry texts grouped by type.
pub open spec fn group_views(g: Seq<(EntryType, Vec<String>)>) -> Seq<(EntryType, Seq<Seq<char>>)> {
    g.map_values(|p: (EntryType, Vec<String>)| (p.0, p.1@.map_values(|t: String| t@)))
}

/// The `(object, weight)` pairs of the entries that point at routers (or at
/// everything else, when `routers` is false), in order.
pub open spec fn adjacency(es: Seq<EntryView>, routers: bool) -> Seq<(Seq<char>, u32)>
    decreases es.len(),
{
    if es.len() == 0 {
        seq![]
    } else {
        let rest = adjacency(es.drop_last(), routers);
        let e = es.last();
        if (e.typ == EntryType::Router) == routers {
            rest.push((e.obj, raw_weight(e.metric)))
        } else {
            rest
        }
    }
}

/// The values of `(object, weight)` pairs.
pub open spec fn pair_views(v: Seq<(String, u32)>) -> Seq<(Seq<char>, u32)> {
    v.map_values(|p: (String, u32)| (p.0@, p.1))
}

impl RouterData {
    /// The details of the router: its distance, then its entries listed under their type.
    pub fn get_details(&self) -> (r: Details)
        ensures
            r@ == router_details(self.distance, entry_views(self.entries@)),
    {
        let ghost ev = entry_views(self.entries@);
        let mut groups: Vec<(EntryType, Vec<String>)> = Vec::new();
        let mut j: usize = 0;
        assert(ev.take(0) =~= seq![]);
        while j < self.entries.len()
            invariant
                j <= self.entries.len(),
                ev == entry_views(self.entries@),
                group_views(groups@) == entry_groups(ev.take(j as int)),
            decreases self.entries.len() - j,
        {
            let e = &self.entries[j];
            let t = describe_entry(e);
            let ghost g0 = group_views(groups@);
            assert(ev.take(j + 1).drop_last() =~= ev.take(j as int));
            let n = groups.len();
            if n > 0 && groups[n - 1].0 == e.typ {
                let (ty, mut v) = groups.pop().unwrap();
                let ghost v0 = v@;
                v.push(t);
                groups.push((ty, v));
                assert(v@.map_values(|x: String| x@) =~= v0.map_values(|x: String| x@).push(t@));
                assert(group_views(groups@) =~= g0.update(n - 1, (ty, g0.last().1.push(t@))));
            } else {
                let mut v: Vec<String> = Vec::new();
                v.push(t);
                groups.push((e.typ, v));
                assert(v@.map_values(|x: String| x@) =~= seq![t@]);
                assert(group_views(groups@) =~= g0.push((e.typ, seq![t@])));
            }
            j = j + 1;
        }
        assert(ev.take(j as int) =~= ev);
        let mut items: Vec<(String, DetailValue)> = Vec::new();
        items.push(("distance".to_owned(), DetailValue::Number(self.distance as u64)));
        let ghost gv = group_views(groups@);
        let mut k: usize = 0;
        while k < groups.len()
            invariant
                k <= groups.len(),
                gv == group_views(groups@),
                items@.len() == k + 1,
                items@[0].0@ == "distance"@,
                items@[0].1@ == DetailView::Number(self.distance as u64),
                forall|i: int|
                    0 <= i < k ==> (#[trigger] items@[i + 1]).0@ == type_heading(gv[i].0)
                        && items@[i + 1].1@ == DetailView::Texts(gv[i].1),
            decreases groups.len() - k,
        {
            let label = type_label(groups[k].0);
            let texts = groups[k].1.clone();
            proof {
                assert(texts@.map_values(|x: String| x@) =~= gv[k as int].1);
            }
            items.push((label, DetailValue::Texts(texts)));
            k = k + 1;
        }
        let r = Details { items };
        proof {
            let rd = router_details(self.distance, ev);
            assert(gv == entry_groups(ev));
            assert(rd.len() == r@.len());
            assert forall|i: int| 0 <= i < rd.len() implies r@[i] == rd[i] by {
                if i > 0 {
                    assert(r@[i] == (r.items@[i].0@, r.items@[i].1@));
                    assert(r.items@[(i - 1) + 1].0@ == type_heading(gv[i - 1].0));
                }
            }
            assert(r@ =~= rd);
        }
        r
    }

    /// The objects and weights of the entries that point at routers.
    pub fn neighbors(&self) -> (r: Vec<(String, u32)>)
        ensures
            pair_views(r@) == adjacency(entry_views(self.entries@), true),
    {
        self.adjacent(true)
    }

    /// The objects and weights of the entries that point at anything but a router.
    pub fn conns(&self) -> (r: Vec<(String, u32)>)
        ensures
            pair_views(r@) == adjacency(entry_views(self.entries@), false),
    {
        self.adjacent(false)
    }

    fn adjacent(&self, routers: bool) -> (r: Vec<(String, u32)>)
        ensures
            pair_views(r@) == adjacency(entry_views(self.entries@), routers),
    {
        let ghost ev = entry_views(self.entries@);
        let mut out: Vec<(String, u32)> = Vec::new();
        let mut j: usize = 0;
        assert(ev.take(0) =~= seq![]);
        while j < self.entries.len()
            invariant
                j <= self.entries.len(),
                ev == entry_views(self.entries@),
                pair_views(out@) == adjacency(ev.take(j as int), routers),
            decreases self.entries.len() - j,
        {
            let e = &self.entries[j];
            assert(ev.take(j + 1).drop_last() =~= ev.take(j as int));
            let is_router = match e.typ {
                EntryType::Router => true,
                _ => false,
            };
            if is_router == routers {
                let ghost before = pair_views(out@);
                out.push((e.obj.clone(), e.metric.weight()));
                assert(pair_views(out@) =~= before.push((e.obj@, raw_weight(e.metric))));
            }
            j = j + 1;
        }
        assert(ev.take(j as int) =~= ev);
        out
    }
}

/// The class of a node, which decides how it is drawn.
#[derive(Clone, Copy, Debug, PartialEq, Eq, Structural)]
pub enum Group {
    RouterSelf,
    Network,
    Unreachable,
}

/// A node of the graph.
#[derive(Clone, Debug, PartialEq)]
pub struct Node {
    pub id: u64,
    pub label: String,
    pub group: Group,
    pub details: Details,
}

pub struct NodeView {
    pub id: u64,
    pub label: Seq<char>,
    pub group: Group,
    pub details: Seq<(Seq<char>, DetailView)>,
}

impl Node {
    pub open spec fn view(&self) -> NodeView {
        NodeView { id: self.id, label: self.label@, group: self.group, details: self.details@ }
    }
}

/// The nodes and edges that a topology projects to.
#[derive(Clone, Debug, PartialEq)]
pub struct Graph {
    pub nodes: Vec<Node>,
    pub edges: Vec<Edge>,
}

/// Whether identity `k` is a reachable router or network of area `a`.
pub open spec fn reachable(a: AreaView, k: u64) -> bool {
    if a.networks.contains_key(k) {
        a.networks[k].distance != 255
    } else if a.routers.contains_key(k) {
        a.routers[k].distance != 255
    } else {
        false
    }
}

/// The group of a named node: unreachable, a network (a prefix, with `/`), or a router.
pub open spec fn node_group(a: AreaView, k: u64, label: Seq<char>) -> Group {
    if !reachable(a, k) {
        Group::Unreachable
    } else if label.contains('/') {
        Group::Network
    } else {
        Group::RouterSelf
    }
}

/// Entry values in strictly increasing order.
pub open spec fn sorted_views(es: Seq<EntryView>) -> bool {
    forall|i: int, j: int| 0 <= i < j < es.len() ==> crate::entry::entry_lt(#[trigger] es[i], #[trigger] es[j])
}

/// `d` lists the distance of router `r` and its entries in their order.
pub open spec fn router_details_of(r: crate::topology::RouterView, d: Seq<(Seq<char>, DetailView)>) -> bool {
    exists|es: Seq<EntryView>|
        sorted_views(es) && es.to_set() == r.entries && d == #[trigger] router_details(r.distance, es)
}

/// The details of a named node.
pub open spec fn details_ok(a: AreaView, k: u64, d: Seq<(Seq<char>, DetailView)>) -> bool {
    if a.networks.contains_key(k) {
        d == seq![("distance"@, DetailView::Number(a.networks[k].distance as u64))]
    } else if a.routers.contains_key(k) {
        router_details_of(a.routers[k], d)
    } else {
        d == Seq::<(Seq<char>, DetailView)>::empty()
    }
}

/// The node drawn for the name `label` of identity `k`.
pub open spec fn named_node(a: AreaView, k: u64, label: Seq<char>, n: NodeView) -> bool {
    n.id == k && n.label == label && n.group == node_group(a, k, label) && details_ok(a, k, n.details)
}

/// `label` is the object, of identity `id`, of an adjacency line of a router of `a`
/// that does not point at a router.
pub open spec fn conn_target(a: AreaView, id: u64, label: Seq<char>) -> bool {
    exists|rid: u64, x: EntryView|
        #![trigger a.routers[rid].entries.contains(x), name_hash(x.obj)]
        a.routers.contains_key(rid) && a.routers[rid].entries.contains(x) && x.typ
            != EntryType::Router && name_hash(x.obj) == id && x.obj == label
}

/// A node drawn for the object of an adjacency line that has no name of its own.
pub open spec fn object_node(a: AreaView, names: Map<u64, Seq<char>>, n: NodeView) -> bool {
    !names.contains_key(n.id) && conn_target(a, n.id, n.label) && n.group == Group::Network
        && n.details == Seq::<(Seq<char>, DetailView)>::empty()
}

fn has_slash(s: &str) -> (r: bool)
    ensures
        r == s@.contains('/'),
{
    let c = crate::text::chars_of(s);
    let mut i: usize = 0;
    while i < c.len()
        invariant
            i <= c.len(),
            c@ == s@,
            forall|k: int| 0 <= k < i ==> c@[k] != '/',
        decreases c.len() - i,
    {
        if c[i] == '/' {
            assert(s@[i as int] == '/');
            return true;
        }
        i = i + 1;
    }
    false
}

/// The node drawn for the name `name` of identity `k`, within area `area`.
fn named(area: &AreaData, k: u64, name: &String) -> (n: Node)
    requires
        area.wf(),
    ensures
        named_node(area@, k, name@, n@),
{
    let reach: bool;
    let details: Details;
    match area.networks.get(&k) {
        Some(nd) => {
            reach = !nd.is_unreachable();
            let mut items: Vec<(String, DetailValue)> = Vec::new();
            items.push(("distance".to_owned(), DetailValue::Number(nd.distance as u64)));
            details = Details { items };
            assert(details@ =~= seq![("distance"@, DetailView::Number(nd.distance as u64))]);
        },
        None => match area.routers.get(&k) {
            Some(rd) => {
                reach = !rd.is_unreachable();
                details = rd.get_details();
                proof {
                    let es = entry_views(rd.entries@);
                    assert(es.to_set() =~= rd@.entries) by {
                        assert forall|x: EntryView| es.to_set().contains(x) <==> rd@.entries.contains(x) by {
                            if rd@.entries.contains(x) {
                                let i = choose|i: int| 0 <= i < rd.entries@.len() && rd.entries@[i]@ == x;
                                assert(es[i] == x);
                            }
                            if es.to_set().contains(x) {
                                let i = choose|i: int| 0 <= i < es.len() && es[i] == x;
                                assert(rd.entries@[i]@ == x);
                            }
                        }
                    }
                    assert(area.routers@.contains_key(k));
                    assert(sorted_views(es));
                    assert(area@.routers[k] == rd@);
                }
            },
            None => {
                reach = false;
                details = Details { items: Vec::new() };
                assert(details@ =~= Seq::<(Seq<char>, DetailView)>::empty());
            },
        },
    }
    let group = if !reach {
        Group::Unreachable
    } else if has_slash(name.as_str()) {
        Group::Network
    } else {
        Group::RouterSelf
    };
    Node { id: k, label: name.clone(), group, details }
}

/// A node of the projection: a named one, or one drawn for an adjacency object.
pub open spec fn node_ok(a: AreaView, names: Map<u64, Seq<char>>, n: NodeView) -> bool {
    if names.contains_key(n.id) {
        named_node(a, n.id, names[n.id], n)
    } else {
        object_node(a, names, n)
    }
}

/// The nodes of `nodes` have distinct identities.
pub open spec fn distinct_ids(nodes: Seq<Node>) -> bool {
    forall|i: int, j: int| 0 <= i < j < nodes.len() ==> (#[trigger] nodes[i]).id != (#[trigger] nodes[j]).id
}

/// Some node of `nodes` has identity `id`.
pub open spec fn has_node(nodes: Seq<Node>, id: u64) -> bool {
    exists|i: int| 0 <= i < nodes.len() && (#[trigger] nodes[i]).id == id
}

/// `g` is the projection of the backbone area of `t`.
pub open spec fn projects_to(t: TopologyView, g: Graph) -> bool {
    let a = backbone(t);
    let names = t.interned;
    &&& sorted_edges(g.edges@)
    &&& forall|e: Edge| g.edges@.contains(e) <==> is_graph_edge(a, e)
    &&& distinct_ids(g.nodes@)
    &&& forall|i: int| 0 <= i < g.nodes@.len() ==> node_ok(a, names, (#[trigger] g.nodes@[i])@)
    &&& forall|k: u64| #[trigger] names.contains_key(k) ==> has_node(g.nodes@, k)
    &&& forall|id: u64, label: Seq<char>|
        #[trigger] conn_target(a, id, label) && !names.contains_key(id) ==> has_node(g.nodes@, id)
}

/// Projects the backbone area of `topo` into a graph; `None` when `topo` has no area at all.
pub fn project(topo: &Topology) -> (r: Option<Graph>)
    requires
        topo.wf(),
    ensures
        r is None <==> topo@.areas.len() == 0,
        r is Some ==> projects_to(topo@, r->Some_0),
{
    if topo.areas.len() == 0 {
        return None;
    }
    let empty = AreaData { routers: BTreeMap::new(), networks: BTreeMap::new() };
    let area: &AreaData = match crate::topology::find_area(&topo.areas, "0.0.0.0") {
        Some(i) => &topo.areas[i].1,
        None => &empty,
    };
    proof {
        if area_index(topo@.areas, "0.0.0.0"@) < 0 {
            assert(area@.routers =~= Map::<u64, crate::topology::RouterView>::empty());
            assert(area@.networks =~= Map::<u64, crate::topology::NetworkView>::empty());
        }
    }
    let ghost a = area@;
    let ghost names = topo@.interned;
    assert(a == backbone(topo@));
    let edges = area_edges(area);
    let mut nodes: Vec<Node> = Vec::new();
    let mut ids: BTreeSet<u64> = BTreeSet::new();
    for item in it: topo.interned.iter()
        invariant
            a == area@,
            area.wf(),
            names == topo@.interned,
            forall|i: int|
                0 <= i < it.seq().len() ==> topo.interned@.contains_key(*(#[trigger] it.seq()[i]).0)
                    && topo.interned@[*it.seq()[i].0] == *it.seq()[i].1,
            forall|k: u64|
                #[trigger] topo.interned@.contains_key(k) ==> it.seq().contains(
                    (&k, &topo.interned@[k]),
                ),
            forall|i: int| 0 <= i < it.index() ==> ids@.contains(*(#[trigger] it.seq()[i]).0),
            it.index() == it.seq().len() ==> forall|k: u64|
                #[trigger] names.contains_key(k) ==> ids@.contains(k),
            forall|x: u64| ids@.contains(x) <==> has_node(nodes@, x),
            distinct_ids(nodes@),
            forall|i: int| 0 <= i < nodes@.len() ==> node_ok(a, names, (#[trigger] nodes@[i])@),
    {
        let (k, name) = item;
        let ghost idx = it.index();
        if !ids.contains(k) {
            let n = named(area, *k, name);
            let ghost before = nodes@;
            nodes.push(n);
            ids.insert(*k);
            proof {
                assert(names[*k] == name@);
                assert forall|x: u64| ids@.contains(x) <==> has_node(nodes@, x) by {
                    if has_node(before, x) {
                        let i = choose|i: int| 0 <= i < before.len() && (#[trigger] before[i]).id == x;
                        assert(nodes@[i].id == x);
                    }
                    if x == *k {
                        assert(nodes@[before.len() as int].id == x);
                    }
                    if has_node(nodes@, x) && x != *k {
                        let i = choose|i: int| 0 <= i < nodes@.len() && (#[trigger] nodes@[i]).id == x;
                        assert(before[i].id == x);
                    }
                }
            }
        }
        proof {
            assert(ids@.contains(*it.seq()[idx].0));
            assert forall|kk: u64|
                idx + 1 == it.seq().len() && #[trigger] names.contains_key(kk) implies ids@.contains(
                    kk,
                ) by {
                assert(topo.interned@.contains_key(kk));
                assert(it.seq().contains((&kk, &topo.interned@[kk])));
                let i = choose|i: int| 0 <= i < it.seq().len() && it.seq()[i] == (&kk, &topo.interned@[kk]);
                assert(ids@.contains(*it.seq()[i].0));
            }
        }
    }
    let ghost named_ids = ids@;
    let ghost mut seen: Seq<u64> = seq![];
    for item in it: area.routers.iter()
        invariant
            a == area@,
            names == topo@.interned,
            forall|i: int|
                0 <= i < it.seq().len() ==> area.routers@.contains_key(*(#[trigger] it.seq()[i]).0)
                    && area.routers@[*it.seq()[i].0] == *it.seq()[i].1,
            forall|k: u64|
                #[trigger] area.routers@.contains_key(k) ==> it.seq().contains(
                    (&k, &area.routers@[k]),
                ),
            seen.len() == it.index(),
            forall|i: int| 0 <= i < seen.len() ==> seen[i] == *(#[trigger] it.seq()[i]).0,
            it.index() == it.seq().len() ==> forall|k: u64|
                #[trigger] area.routers@.contains_key(k) ==> seen.contains(k),
            forall|k: u64| #[trigger] names.contains_key(k) ==> ids@.contains(k),
            forall|q: int, x: EntryView|
                0 <= q < seen.len() && #[trigger] a.routers[seen[q]].entries.contains(x) && x.typ
                    != EntryType::Router ==> ids@.contains(name_hash(x.obj)),
            forall|x: u64| ids@.contains(x) <==> has_node(nodes@, x),
            distinct_ids(nodes@),
            forall|i: int| 0 <= i < nodes@.len() ==> node_ok(a, names, (#[trigger] nodes@[i])@),
    {
        let (rid, rd) = item;
        let ghost idx = it.index();
        proof {
            assert(a.routers[*rid] == rd@);
        }
        let mut j: usize = 0;
        while j < rd.entries.len()
            invariant
                j <= rd.entries.len(),
                a == area@,
                names == topo@.interned,
                area.routers@.contains_key(*rid),
                a.routers[*rid] == rd@,
                forall|k: u64| #[trigger] names.contains_key(k) ==> ids@.contains(k),
                forall|q: int, x: EntryView|
                    0 <= q < seen.len() && #[trigger] a.routers[seen[q]].entries.contains(x) && x.typ
                        != EntryType::Router ==> ids@.contains(name_hash(x.obj)),
                forall|q: int|
                    0 <= q < j && (#[trigger] rd.entries@[q]).typ != EntryType::Router
                        ==> ids@.contains(name_hash(rd.entries@[q].obj@)),
                forall|x: u64| ids@.contains(x) <==> has_node(nodes@, x),
                distinct_ids(nodes@),
                forall|i: int| 0 <= i < nodes@.len() ==> node_ok(a, names, (#[trigger] nodes@[i])@),
            decreases rd.entries.len() - j,
        {
            let e = &rd.entries[j];
            let is_router = match e.typ {
                EntryType::Router => true,
                _ => false,
            };
            if !is_router {
                let id = router2id(e.obj.as_str());
                if !topo.interned.contains_key(&id) && !ids.contains(&id) {
                    let n = Node {
                        id,
                        label: e.obj.clone(),
                        group: Group::Network,
                        details: Details { items: Vec::new() },
                    };
                    let ghost before = nodes@;
                    proof {
                        assert(rd@.entries.contains(e@));
                        assert(a.routers[*rid].entries.contains(e@));
                        assert(a.routers.contains_key(*rid));
                        assert(name_hash(e@.obj) == id);
                        assert(e@.typ != EntryType::Router);
                        assert(conn_target(a, id, e.obj@));
                        assert(n@.details =~= Seq::<(Seq<char>, DetailView)>::empty());
                        assert(object_node(a, names, n@));
                    }
                    nodes.push(n);
                    ids.insert(id);
                    proof {
                        assert forall|x: u64| ids@.contains(x) <==> has_node(nodes@, x) by {
                            if has_node(before, x) {
                                let i = choose|i: int| 0 <= i < before.len() && (#[trigger] before[i]).id == x;
                                assert(nodes@[i].id == x);
                            }
                            if x == id {
                                assert(nodes@[before.len() as int].id == x);
                            }
                            if has_node(nodes@, x) && x != id {
                                let i = choose|i: int| 0 <= i < nodes@.len() && (#[trigger] nodes@[i]).id == x;
                                assert(before[i].id == x);
                            }
                        }
                    }
                }
                proof {
                    if names.contains_key(id) {
                        assert(ids@.contains(id));
                    }
                    assert(ids@.contains(name_hash(rd.entries@[j as int].obj@)));
                }
            }
            j = j + 1;
        }
        proof {
            let s2 = seen.push(*rid);
            assert forall|q: int, x: EntryView|
                0 <= q < s2.len() && #[trigger] a.routers[s2[q]].entries.contains(x) && x.typ
                    != EntryType::Router implies ids@.contains(name_hash(x.obj)) by {
                if q < seen.len() {
                    assert(s2[q] == seen[q]);
                } else {
                    assert(rd@.entries.contains(x));
                    let i = choose|i: int| 0 <= i < rd.entries@.len() && rd.entries@[i]@ == x;
                    assert(rd.entries@[i].typ != EntryType::Router);
                }
            }
            if idx + 1 == it.seq().len() {
                assert forall|kk: u64| #[trigger] area.routers@.contains_key(kk) implies s2.contains(
                    kk,
                ) by {
                    assert(it.seq().contains((&kk, &area.routers@[kk])));
                    let i = choose|i: int| 0 <= i < it.seq().len() && it.seq()[i] == (&kk, &area.routers@[kk]);
                    assert(s2[i] == *it.seq()[i].0);
                }
            }
            seen = s2;
        }
    }
    let g = Graph { nodes, edges };
    proof {
        assert forall|id: u64, label: Seq<char>|
            #[trigger] conn_target(a, id, label) && !names.contains_key(id) implies has_node(g.nodes@, id) by {
            let (rid, x) = choose|rid: u64, x: EntryView|
                a.routers.contains_key(rid) && a.routers[rid].entries.contains(x) && x.typ
                    != EntryType::Router && name_hash(x.obj) == id && x.obj == label;
            assert(area.routers@.contains_key(rid));
            let q = choose|q: int| 0 <= q < seen.len() && seen[q] == rid;
            assert(a.routers[seen[q]].entries.contains(x));
            assert(ids@.contains(id));
        }
        assert forall|k: u64| #[trigger] names.contains_key(k) implies has_node(g.nodes@, k) by {
            assert(ids@.contains(k));
        }
    }
    Some(g)
}
/// The topology that results from merging the dumps `texts` into `t`, in order.
pub open spec fn merge_all(t: TopologyView, texts: Seq<Seq<char>>) -> Result<
    TopologyView,
    crate::topology::ParseFailure,
>
    decreases texts.len(),
{
    if texts.len() == 0 {
        Ok(t)
    } else {
        match crate::topology::merge_dump(t, texts[0]) {
            Err(e) => Err(e),
            Ok(t2) => merge_all(t2, texts.drop_first()),
        }
    }
}

/// A topology with no names and no areas.
pub open spec fn empty_topology() -> TopologyView {
    TopologyView { interned: Map::empty(), areas: Seq::empty() }
}

/// The values of a sequence of strings.
pub open spec fn text_views(v: Seq<String>) -> Seq<Seq<char>> {
    v.map_values(|s: String| s@)
}

/// Merges the dumps into one fresh topology and projects it. `None` when a
/// dump cannot be read, or when no dump holds an area.
pub fn build_graph(dumps: &Vec<String>) -> (r: Option<Graph>)
    ensures
        match merge_all(empty_topology(), text_views(dumps@)) {
            Err(_) => r is None,
            Ok(t) => (r is None <==> t.areas.len() == 0) && (r is Some ==> projects_to(
                t,
                r->Some_0,
            )),
        },
{
    let ghost tv = text_views(dumps@);
    let mut topo = Topology::new();
    assert(topo@ == empty_topology());
    let mut i: usize = 0;
    assert(tv.skip(0) =~= tv);
    while i < dumps.len()
        invariant
            i <= dumps.len(),
            tv == text_views(dumps@),
            topo.wf(),
            merge_all(empty_topology(), tv) == merge_all(topo@, tv.skip(i as int)),
        decreases dumps.len() - i,
    {
        assert(tv.skip(i as int).drop_first() =~= tv.skip(i + 1));
        assert(tv.skip(i as int)[0] == dumps@[i as int]@);
        topo = match crate::topology::parse_topology(topo, dumps[i].as_str()) {
            Ok(t) => t,
            Err(_) => return None,
        };
        i = i + 1;
    }
    assert(tv.skip(i as int) =~= seq![]);
    project(&topo)
}

/// An adjacency between routers `a` and `b` is drawn from the smaller identity
/// to the larger, with length `min(w / 100 + 1, 1000)` for its weight `w`;
/// reported from both ends with one weight, it is drawn once.
pub proof fn lemma_adjacency_drawn_once(
    t: TopologyView,
    g: Graph,
    a: u64,
    b: u64,
    x: EntryView,
    y: EntryView,
)
    requires
        projects_to(t, g),
        backbone(t).routers.contains_key(a),
        backbone(t).routers[a].entries.contains(x),
        backbone(t).routers.contains_key(b),
        backbone(t).routers[b].entries.contains(y),
        name_hash(x.obj) == b,
        name_hash(y.obj) == a,
        raw_weight(x.metric) == raw_weight(y.metric),
    ensures
        entry_edge(a, x) == entry_edge(b, y),
        entry_edge(a, x).from == if a <= b { a } else { b },
        entry_edge(a, x).to == if a <= b { b } else { a },
        entry_edge(a, x).length == if raw_weight(x.metric) / 100 + 1 < 1000 {
            raw_weight(x.metric) / 100 + 1
        } else {
            1000
        },
        g.edges@.contains(entry_edge(a, x)),
        forall|i: int, j: int|
            0 <= i < g.edges@.len() && 0 <= j < g.edges@.len() && g.edges@[i] == entry_edge(a, x)
                && g.edges@[j] == entry_edge(a, x) ==> i == j,
{
    assert(is_router_edge(backbone(t), entry_edge(a, x)));
    assert(is_graph_edge(backbone(t), entry_edge(a, x)));
    assert(g.edges@.contains(entry_edge(a, x)));
    assert forall|i: int, j: int|
        0 <= i < g.edges@.len() && 0 <= j < g.edges@.len() && g.edges@[i] == entry_edge(a, x)
            && g.edges@[j] == entry_edge(a, x) implies i == j by {
        if i < j {
            assert(edge_lt(g.edges@[i], g.edges@[j]));
        } else if j < i {
            assert(edge_lt(g.edges@[j], g.edges@[i]));
        }
    }
}

/// An external metric weighs more than any internal metric up to 1000, but
/// for `External(0)` against `Internal(1000)`, which weigh the same.
pub proof fn lemma_external_outranks_internal(x: u16, y: u16)
    requires
        y <= 1000,
        x > 0 || y < 1000,
    ensures
        raw_weight(crate::entry::Metric::External(x)) > raw_weight(crate::entry::Metric::Internal(y)),
        raw_weight(crate::entry::Metric::External(x)) == 1000 + x,
{
}

} // verus!
