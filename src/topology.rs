//! The topology model and the parser that merges a link-state dump into it.
use std::collections::{BTreeMap, BTreeSet};
use std::hash::{Hash, Hasher};
use vstd::prelude::*;

use crate::block::{parse_nested_blocks, views, Block, BlockView};
use crate::entry::{
    entry_of, entry_set, insert_entry, parse_number, parse_unsigned, sorted_entries, Entry,
    EntryParseError, EntryView,
};
use crate::text::chars_of;

verus! {

broadcast use vstd::std_specs::btree::group_btree_axioms;

/// The identity that a router or network name is given.
pub uninterp spec fn name_hash(name: Seq<char>) -> u64;

/// Relies on `DefaultHasher::new` and `Hash for str`: a fixed hash of the name's bytes.
#[verifier::external_body]
pub fn router2id(router: &str) -> (r: u64)
    ensures
        r == name_hash(router@),
{
    let mut hasher = std::collections::hash_map::DefaultHasher::new();
    router.hash(&mut hasher);
    hasher.finish()
}

/// Relies on `str::strip_prefix`: the rest of `s` after `pfx`, if `s` starts with it.
#[verifier::external_body]
fn try_eat_pfx<'a>(s: &'a str, pfx: &str) -> (r: Option<&'a str>)
    ensures
        r is Some <==> has_prefix(s@, pfx@),
        r is Some ==> r->0@ == s@.skip(pfx@.len() as int),
{
    s.strip_prefix(pfx)
}

/// `s` starts with `p`.
pub open spec fn has_prefix(s: Seq<char>, p: Seq<char>) -> bool {
    p.len() <= s.len() && s.take(p.len() as int) == p
}

/// Reachability cost; 255 marks an unreachable router or network.
pub type Distance = u8;

pub const UNREACHABLE: u8 = 255;

/// What one router block of the dump says of a router.
pub struct RouterData {
    pub distance: Distance,
    pub entries: Vec<Entry>,
}

/// What one network block of the dump says of a network.
pub struct NetworkData {
    pub distance: Distance,
    pub dr: u64,
    pub routers: BTreeSet<u64>,
}

/// The routers and networks of one area.
pub struct AreaData {
    pub routers: BTreeMap<u64, RouterData>,
    pub networks: BTreeMap<u64, NetworkData>,
}

/// Every area of a dump, with the names behind the identities.
pub struct Topology {
    pub interned: BTreeMap<u64, String>,
    pub areas: Vec<(String, AreaData)>,
}

/// Why a dump could not be merged into a topology.
#[derive(Clone, Debug, PartialEq)]
pub enum TopologyParseError {
    InvalidEntry { ent: String, err: EntryParseError },
    InvalidDistance,
    UnknownStructure(u32),
    DistanceMismatch(u8, u8),
}

pub struct RouterView {
    pub distance: u8,
    pub entries: Set<EntryView>,
}

pub struct NetworkView {
    pub distance: u8,
    pub dr: u64,
    pub routers: Set<u64>,
}

pub struct AreaView {
    pub routers: Map<u64, RouterView>,
    pub networks: Map<u64, NetworkView>,
}

pub struct TopologyView {
    pub interned: Map<u64, Seq<char>>,
    pub areas: Seq<(Seq<char>, AreaView)>,
}

pub enum ParseFailure {
    InvalidEntry(Seq<char>, EntryParseError),
    InvalidDistance,
    UnknownStructure(u32),
    DistanceMismatch(u8, u8),
}

impl RouterData {
    pub open spec fn view(&self) -> RouterView {
        RouterView { distance: self.distance, entries: entry_set(self.entries@) }
    }

    /// The entries are in strictly increasing order.
    pub open spec fn wf(&self) -> bool {
        sorted_entries(self.entries@)
    }
}

impl NetworkData {
    pub open spec fn view(&self) -> NetworkView {
        NetworkView { distance: self.distance, dr: self.dr, routers: self.routers@ }
    }
}

/// The values of the routers of an area.
pub open spec fn router_views(m: Map<u64, RouterData>) -> Map<u64, RouterView> {
    Map::new(|k: u64| m.contains_key(k), |k: u64| m[k]@)
}

/// The values of the networks of an area.
pub open spec fn network_views(m: Map<u64, NetworkData>) -> Map<u64, NetworkView> {
    Map::new(|k: u64| m.contains_key(k), |k: u64| m[k]@)
}

/// The values of a names table.
pub open spec fn name_views(m: Map<u64, String>) -> Map<u64, Seq<char>> {
    Map::new(|k: u64| m.contains_key(k), |k: u64| m[k]@)
}

impl AreaData {
    pub open spec fn view(&self) -> AreaView {
        AreaView { routers: router_views(self.routers@), networks: network_views(self.networks@) }
    }

    /// Every router is well formed.
    pub open spec fn wf(&self) -> bool {
        forall|k: u64| #[trigger] self.routers@.contains_key(k) ==> self.routers@[k].wf()
    }
}

/// The values of the areas of a topology.
pub open spec fn area_views(v: Seq<(String, AreaData)>) -> Seq<(Seq<char>, AreaView)> {
    v.map_values(|p: (String, AreaData)| (p.0@, p.1@))
}

impl Topology {
    pub open spec fn view(&self) -> TopologyView {
        TopologyView { interned: name_views(self.interned@), areas: area_views(self.areas@) }
    }

    /// Every area is well formed.
    pub open spec fn wf(&self) -> bool {
        forall|i: int| 0 <= i < self.areas@.len() ==> (#[trigger] self.areas@[i]).1.wf()
    }
}

impl TopologyParseError {
    pub open spec fn view(&self) -> ParseFailure {
        match self {
            TopologyParseError::InvalidEntry { ent, err } => ParseFailure::InvalidEntry(ent@, *err),
            TopologyParseError::InvalidDistance => ParseFailure::InvalidDistance,
            TopologyParseError::UnknownStructure(l) => ParseFailure::UnknownStructure(*l),
            TopologyParseError::DistanceMismatch(a, b) => ParseFailure::DistanceMismatch(*a, *b),
        }
    }
}

/// A router seen for the first time: unreachable, without entries.
pub open spec fn empty_router() -> RouterView {
    RouterView { distance: 255, entries: Set::empty() }
}

/// A network seen for the first time: unreachable, without members.
pub open spec fn empty_network() -> NetworkView {
    NetworkView { distance: 255, dr: 0, routers: Set::empty() }
}

/// An area seen for the first time.
pub open spec fn empty_area() -> AreaView {
    AreaView { routers: Map::empty(), networks: Map::empty() }
}

/// A new distance for a router or network that already has `cur`.
pub open spec fn set_distance(cur: u8, new: u8) -> Result<u8, ParseFailure> {
    if cur != new && cur != 255 {
        Err(ParseFailure::DistanceMismatch(cur, new))
    } else {
        Ok(new)
    }
}

/// The effect of an `unreachable` or `distance <n>` line, if `h` is one.
pub open spec fn distance_line(cur: u8, h: Seq<char>) -> Option<Result<u8, ParseFailure>> {
    if h == "unreachable"@ {
        Some(set_distance(cur, 255))
    } else if has_prefix(h, "distance "@) {
        Some(
            match parse_unsigned(h.skip("distance "@.len() as int), 255) {
                None => Err(ParseFailure::InvalidDistance),
                Some(d) => set_distance(cur, d as u8),
            },
        )
    } else {
        None
    }
}

/// One line inside a router block.
pub open spec fn router_step(rv: RouterView, line: BlockView) -> Result<RouterView, ParseFailure> {
    if line.subs.len() > 0 {
        Err(ParseFailure::UnknownStructure(3))
    } else {
        match distance_line(rv.distance, line.head) {
            Some(Ok(d)) => Ok(RouterView { distance: d, entries: rv.entries }),
            Some(Err(e)) => Err(e),
            None => match entry_of(line.head) {
                Ok(e) => Ok(RouterView { distance: rv.distance, entries: rv.entries.insert(e) }),
                Err(e) => Err(ParseFailure::InvalidEntry(line.head, e)),
            },
        }
    }
}

/// The lines of a router block, in order.
pub open spec fn router_lines(rv: RouterView, ls: Seq<BlockView>) -> Result<
    RouterView,
    ParseFailure,
>
    decreases ls.len(),
{
    if ls.len() == 0 {
        Ok(rv)
    } else {
        match router_step(rv, ls[0]) {
            Err(e) => Err(e),
            Ok(r) => router_lines(r, ls.drop_first()),
        }
    }
}

/// The names table after a name is seen: the first spelling of an identity is kept.
pub open spec fn intern(names: Map<u64, Seq<char>>, n: Seq<char>) -> Map<u64, Seq<char>> {
    if names.contains_key(name_hash(n)) {
        names
    } else {
        names.insert(name_hash(n), n)
    }
}

/// One line inside a network block.
pub open spec fn network_step(
    names: Map<u64, Seq<char>>,
    nv: NetworkView,
    line: BlockView,
) -> Result<(Map<u64, Seq<char>>, NetworkView), ParseFailure> {
    let h = line.head;
    if line.subs.len() > 0 {
        Err(ParseFailure::UnknownStructure(3))
    } else {
        match distance_line(nv.distance, h) {
            Some(Ok(d)) => Ok((names, NetworkView { distance: d, ..nv })),
            Some(Err(e)) => Err(e),
            None => if has_prefix(h, "dr "@) {
                let n = h.skip("dr "@.len() as int);
                Ok((intern(names, n), NetworkView { dr: name_hash(n), ..nv }))
            } else if has_prefix(h, "router "@) {
                let n = h.skip("router "@.len() as int);
                Ok((intern(names, n), NetworkView { routers: nv.routers.insert(name_hash(n)), ..nv }))
            } else {
                Ok((names, nv))
            },
        }
    }
}

/// The lines of a network block, in order.
pub open spec fn network_lines(
    names: Map<u64, Seq<char>>,
    nv: NetworkView,
    ls: Seq<BlockView>,
) -> Result<(Map<u64, Seq<char>>, NetworkView), ParseFailure>
    decreases ls.len(),
{
    if ls.len() == 0 {
        Ok((names, nv))
    } else {
        match network_step(names, nv, ls[0]) {
            Err(e) => Err(e),
            Ok((n2, v2)) => network_lines(n2, v2, ls.drop_first()),
        }
    }
}

/// One `router <name>` or `network <name>` block inside an area.
pub open spec fn element_step(
    names: Map<u64, Seq<char>>,
    a: AreaView,
    e: BlockView,
) -> Result<(Map<u64, Seq<char>>, AreaView), ParseFailure> {
    if has_prefix(e.head, "router "@) {
        let n = e.head.skip("router "@.len() as int);
        let id = name_hash(n);
        let r0 = if a.routers.contains_key(id) {
            a.routers[id]
        } else {
            empty_router()
        };
        match router_lines(r0, e.subs) {
            Err(x) => Err(x),
            Ok(r) => Ok((intern(names, n), AreaView { routers: a.routers.insert(id, r), ..a })),
        }
    } else if has_prefix(e.head, "network "@) {
        let n = e.head.skip("network "@.len() as int);
        let id = name_hash(n);
        let v0 = if a.networks.contains_key(id) {
            a.networks[id]
        } else {
            empty_network()
        };
        match network_lines(intern(names, n), v0, e.subs) {
            Err(x) => Err(x),
            Ok((n2, v)) => Ok((n2, AreaView { networks: a.networks.insert(id, v), ..a })),
        }
    } else {
        Err(ParseFailure::UnknownStructure(2))
    }
}

/// The blocks of an area, in order.
pub open spec fn area_elements(
    names: Map<u64, Seq<char>>,
    a: AreaView,
    es: Seq<BlockView>,
) -> Result<(Map<u64, Seq<char>>, AreaView), ParseFailure>
    decreases es.len(),
{
    if es.len() == 0 {
        Ok((names, a))
    } else {
        match element_step(names, a, es[0]) {
            Err(x) => Err(x),
            Ok((n2, a2)) => area_elements(n2, a2, es.drop_first()),
        }
    }
}

/// Where the area called `n` stands, if it is there.
pub open spec fn area_index(areas: Seq<(Seq<char>, AreaView)>, n: Seq<char>) -> int
    decreases areas.len(),
{
    if areas.len() == 0 {
        -1
    } else if areas.last().0 == n {
        areas.len() - 1
    } else {
        area_index(areas.drop_last(), n)
    }
}

/// One `area <name>` block.
pub open spec fn area_step(t: TopologyView, b: BlockView) -> Result<TopologyView, ParseFailure> {
    if !has_prefix(b.head, "area "@) {
        Err(ParseFailure::UnknownStructure(1))
    } else {
        let n = b.head.skip("area "@.len() as int);
        let i = area_index(t.areas, n);
        let a0 = if i >= 0 {
            t.areas[i].1
        } else {
            empty_area()
        };
        match area_elements(t.interned, a0, b.subs) {
            Err(x) => Err(x),
            Ok((names, a)) => Ok(
                TopologyView {
                    interned: names,
                    areas: if i >= 0 {
                        t.areas.update(i, (n, a))
                    } else {
                        t.areas.push((n, a))
                    },
                },
            ),
        }
    }
}

/// The area blocks of a dump, in order.
pub open spec fn area_blocks(t: TopologyView, bs: Seq<BlockView>) -> Result<
    TopologyView,
    ParseFailure,
>
    decreases bs.len(),
{
    if bs.len() == 0 {
        Ok(t)
    } else {
        match area_step(t, bs[0]) {
            Err(x) => Err(x),
            Ok(t2) => area_blocks(t2, bs.drop_first()),
        }
    }
}

/// The topology that results from merging the dump `s` into `t`.
pub open spec fn merge_dump(t: TopologyView, s: Seq<char>) -> Result<TopologyView, ParseFailure> {
    let f = crate::block::forest_of(s);
    if f.len() == 0 || !has_prefix(f[0].head, "BIRD v"@) {
        Err(ParseFailure::UnknownStructure(0))
    } else {
        area_blocks(t, f.drop_first())
    }
}

/// Whether `s` is exactly `lit`.
fn text_is(s: &str, lit: &str) -> (r: bool)
    ensures
        r == (s@ == lit@),
{
    let c = chars_of(s);
    crate::entry::word_is(&c, lit)
}

fn mismatch_checked(cur: u8, new: u8) -> (r: Result<u8, TopologyParseError>)
    ensures
        match set_distance(cur, new) {
            Ok(d) => r == Ok::<u8, TopologyParseError>(d),
            Err(e) => r is Err && r->Err_0@ == e,
        },
{
    if cur != new && cur != UNREACHABLE {
        Err(TopologyParseError::DistanceMismatch(cur, new))
    } else {
        Ok(new)
    }
}

/// The effect of an `unreachable` or `distance <n>` line on a distance `cur`.
fn distance_of(cur: u8, h: &str) -> (r: Option<Result<u8, TopologyParseError>>)
    ensures
        match distance_line(cur, h@) {
            None => r is None,
            Some(Ok(d)) => r == Some(Ok::<u8, TopologyParseError>(d)),
            Some(Err(e)) => r is Some && r->0 is Err && r->0->Err_0@ == e,
        },
{
    if text_is(h, "unreachable") {
        Some(mismatch_checked(cur, UNREACHABLE))
    } else if let Some(rest) = try_eat_pfx(h, "distance ") {
        let digits = chars_of(rest);
        match parse_number(&digits, 255) {
            None => Some(Err(TopologyParseError::InvalidDistance)),
            Some(d) => Some(mismatch_checked(cur, d as u8)),
        }
    } else {
        None
    }
}

/// Records a name; returns its identity.
fn intern_name(names: &mut BTreeMap<u64, String>, n: &str) -> (id: u64)
    ensures
        id == name_hash(n@),
        name_views(final(names)@) == intern(name_views(old(names)@), n@),
{
    let id = router2id(n);
    if !names.contains_key(&id) {
        names.insert(id, n.to_owned());
        assert(name_views(names@) =~= name_views(old(names)@).insert(id, n@));
    } else {
        assert(name_views(names@) =~= name_views(old(names)@));
    }
    id
}

impl RouterData {
    /// Applies the lines of a router block.
    pub fn merge_lines(&mut self, lines: &Vec<Block>) -> (r: Result<(), TopologyParseError>)
        requires
            old(self).wf(),
        ensures
            final(self).wf(),
            match router_lines(old(self)@, views(lines@)) {
                Ok(v) => r is Ok && final(self)@ == v,
                Err(e) => r is Err && r->Err_0@ == e,
            },
    {
        let ghost ls = views(lines@);
        let mut i: usize = 0;
        assert(ls.skip(0) =~= ls);
        while i < lines.len()
            invariant
                i <= lines.len(),
                ls == views(lines@),
                self.wf(),
                router_lines(old(self)@, ls) == router_lines(self@, ls.skip(i as int)),
            decreases lines.len() - i,
        {
            let line = &lines[i];
            assert(ls.skip(i as int).drop_first() =~= ls.skip(i + 1));
            assert(ls.skip(i as int)[0] == line@);
            if line.subs.len() > 0 {
                return Err(TopologyParseError::UnknownStructure(3));
            }
            let h = line.head.as_str();
            match distance_of(self.distance, h) {
                Some(Ok(d)) => {
                    self.distance = d;
                },
                Some(Err(e)) => {
                    return Err(e);
                },
                None => match Entry::from_str(h) {
                    Ok(e) => {
                        insert_entry(&mut self.entries, e);
                    },
                    Err(err) => {
                        return Err(TopologyParseError::InvalidEntry { ent: h.to_owned(), err });
                    },
                },
            }
            i = i + 1;
        }
        assert(ls.skip(i as int) =~= seq![]);
        Ok(())
    }
}

impl NetworkData {
    /// Applies the lines of a network block.
    pub fn merge_lines(&mut self, names: &mut BTreeMap<u64, String>, lines: &Vec<Block>) -> (r:
        Result<(), TopologyParseError>)
        ensures
            match network_lines(name_views(old(names)@), old(self)@, views(lines@)) {
                Ok((n, v)) => r is Ok && final(self)@ == v && name_views(final(names)@) == n,
                Err(e) => r is Err && r->Err_0@ == e,
            },
    {
        let ghost ls = views(lines@);
        let mut i: usize = 0;
        assert(ls.skip(0) =~= ls);
        while i < lines.len()
            invariant
                i <= lines.len(),
                ls == views(lines@),
                network_lines(name_views(old(names)@), old(self)@, ls) == network_lines(
                    name_views(names@),
                    self@,
                    ls.skip(i as int),
                ),
            decreases lines.len() - i,
        {
            let line = &lines[i];
            assert(ls.skip(i as int).drop_first() =~= ls.skip(i + 1));
            assert(ls.skip(i as int)[0] == line@);
            if line.subs.len() > 0 {
                return Err(TopologyParseError::UnknownStructure(3));
            }
            let h = line.head.as_str();
            match distance_of(self.distance, h) {
                Some(Ok(d)) => {
                    self.distance = d;
                },
                Some(Err(e)) => {
                    return Err(e);
                },
                None => {
                    if let Some(dr) = try_eat_pfx(h, "dr ") {
                        self.dr = intern_name(names, dr);
                    } else if let Some(router) = try_eat_pfx(h, "router ") {
                        let id = intern_name(names, router);
                        self.routers.insert(id);
                    }
                },
            }
            i = i + 1;
        }
        assert(ls.skip(i as int) =~= seq![]);
        Ok(())
    }
}

impl AreaData {
    /// Applies the `router` and `network` blocks of an area block.
    pub fn merge_elements(&mut self, names: &mut BTreeMap<u64, String>, es: &Vec<Block>) -> (r:
        Result<(), TopologyParseError>)
        requires
            old(self).wf(),
        ensures
            final(self).wf(),
            match area_elements(name_views(old(names)@), old(self)@, views(es@)) {
                Ok((n, a)) => r is Ok && final(self)@ == a && name_views(final(names)@) == n,
                Err(e) => r is Err && r->Err_0@ == e,
            },
    {
        let ghost ls = views(es@);
        let mut i: usize = 0;
        assert(ls.skip(0) =~= ls);
        while i < es.len()
            invariant
                i <= es.len(),
                ls == views(es@),
                self.wf(),
                area_elements(name_views(old(names)@), old(self)@, ls) == area_elements(
                    name_views(names@),
                    self@,
                    ls.skip(i as int),
                ),
            decreases es.len() - i,
        {
            let e = &es[i];
            assert(ls.skip(i as int).drop_first() =~= ls.skip(i + 1));
            assert(ls.skip(i as int)[0] == e@);
            let h = e.head.as_str();
            let ghost a0 = self@;
            assert(views(e.subs@) =~= e@.subs);
            if let Some(name) = try_eat_pfx(h, "router ") {
                let ghost m0 = self.routers@;
                let id = intern_name(names, name);
                let mut rd = match self.routers.remove(&id) {
                    Some(r) => r,
                    None => RouterData { distance: UNREACHABLE, entries: Vec::new() },
                };
                proof {
                    if m0.contains_key(id) {
                        assert(rd@ == a0.routers[id]);
                    } else {
                        assert(rd.entries@ =~= Seq::<Entry>::empty());
                        assert(rd@.entries =~= Set::<EntryView>::empty());
                        assert(rd@ == empty_router());
                    }
                }
                rd.merge_lines(&e.subs)?;
                self.routers.insert(id, rd);
                proof {
                    assert(router_views(self.routers@) =~= a0.routers.insert(id, rd@));
                    assert(network_views(self.networks@) =~= a0.networks);
                }
            } else if let Some(name) = try_eat_pfx(h, "network ") {
                let ghost m0 = self.networks@;
                let id = intern_name(names, name);
                let mut nd = match self.networks.remove(&id) {
                    Some(n) => n,
                    None => NetworkData { distance: UNREACHABLE, dr: 0, routers: BTreeSet::new() },
                };
                proof {
                    if m0.contains_key(id) {
                        assert(nd@ == a0.networks[id]);
                    } else {
                        assert(nd@.routers =~= Set::<u64>::empty());
                        assert(nd@ == empty_network());
                    }
                }
                nd.merge_lines(names, &e.subs)?;
                self.networks.insert(id, nd);
                proof {
                    assert(network_views(self.networks@) =~= a0.networks.insert(id, nd@));
                    assert(router_views(self.routers@) =~= a0.routers);
                }
            } else {
                return Err(TopologyParseError::UnknownStructure(2));
            }
            i = i + 1;
        }
        assert(ls.skip(i as int) =~= seq![]);
        Ok(())
    }
}

proof fn lemma_area_index(areas: Seq<(Seq<char>, AreaView)>, n: Seq<char>)
    ensures
        -1 <= area_index(areas, n) < areas.len(),
        area_index(areas, n) >= 0 ==> areas[area_index(areas, n)].0 == n,
    decreases areas.len(),
{
    if areas.len() > 0 && areas.last().0 != n {
        lemma_area_index(areas.drop_last(), n);
    }
}

/// Two `router` blocks of one area that name routers of different identities
/// can be merged in either order: when one order succeeds, the other gives
/// the same names and the same area.
pub proof fn lemma_disjoint_router_blocks_commute(
    names: Map<u64, Seq<char>>,
    a: AreaView,
    e1: BlockView,
    e2: BlockView,
)
    requires
        has_prefix(e1.head, "router "@),
        has_prefix(e2.head, "router "@),
        name_hash(e1.head.skip("router "@.len() as int)) != name_hash(
            e2.head.skip("router "@.len() as int),
        ),
        area_elements(names, a, seq![e1, e2]) is Ok,
    ensures
        area_elements(names, a, seq![e2, e1]) == area_elements(names, a, seq![e1, e2]),
{
    let n1 = e1.head.skip("router "@.len() as int);
    let n2 = e2.head.skip("router "@.len() as int);
    let id1 = name_hash(n1);
    let id2 = name_hash(n2);
    assert(seq![e1, e2].drop_first() =~= seq![e2]);
    assert(seq![e2, e1].drop_first() =~= seq![e1]);
    assert(seq![e2].drop_first() =~= Seq::<BlockView>::empty());
    assert(seq![e1].drop_first() =~= Seq::<BlockView>::empty());
    let r01 = if a.routers.contains_key(id1) {
        a.routers[id1]
    } else {
        empty_router()
    };
    let r02 = if a.routers.contains_key(id2) {
        a.routers[id2]
    } else {
        empty_router()
    };
    assert(area_elements(names, a, seq![e1, e2]) == match element_step(names, a, e1) {
        Err(x) => Err(x),
        Ok((n2x, a2x)) => area_elements(n2x, a2x, seq![e2]),
    });
    let (na, aa) = element_step(names, a, e1)->Ok_0;
    let r1 = router_lines(r01, e1.subs)->Ok_0;
    assert(router_lines(r01, e1.subs) is Ok);
    assert(aa.routers == a.routers.insert(id1, r1));
    let r02b = if aa.routers.contains_key(id2) {
        aa.routers[id2]
    } else {
        empty_router()
    };
    assert(r02b == r02);
    assert(element_step(na, aa, e2) is Ok);
    assert(router_lines(r02, e2.subs) is Ok);
    let r2 = router_lines(r02, e2.subs)->Ok_0;
    assert(element_step(names, a, e2) is Ok);
    let (nb, ab) = element_step(names, a, e2)->Ok_0;
    assert(ab.routers == a.routers.insert(id2, r2));
    let r01b = if ab.routers.contains_key(id1) {
        ab.routers[id1]
    } else {
        empty_router()
    };
    assert(r01b == r01);
    assert(area_elements(names, a, seq![e2, e1]) == area_elements(nb, ab, seq![e1]));
    assert(a.routers.insert(id1, r1).insert(id2, r2) =~= a.routers.insert(id2, r2).insert(id1, r1));
    assert(intern(intern(names, n1), n2) =~= intern(intern(names, n2), n1));
}

/// The identity of the router that a `router <name>` block describes.
pub open spec fn router_block_id(e: BlockView) -> u64 {
    name_hash(e.head.skip("router "@.len() as int))
}

/// Every block of `es` is a `router <name>` block.
pub open spec fn all_router_blocks(es: Seq<BlockView>) -> bool {
    forall|i: int| 0 <= i < es.len() ==> has_prefix((#[trigger] es[i]).head, "router "@)
}

/// No block of `es1` describes a router of the same identity as a block of `es2`.
pub open spec fn disjoint_routers(es1: Seq<BlockView>, es2: Seq<BlockView>) -> bool {
    forall|i: int, j: int|
        0 <= i < es1.len() && 0 <= j < es2.len() ==> router_block_id(#[trigger] es1[i])
            != router_block_id(#[trigger] es2[j])
}

/// Merging `s1 + s2` merges `s1`, then `s2`.
pub proof fn lemma_elements_concat(
    names: Map<u64, Seq<char>>,
    a: AreaView,
    s1: Seq<BlockView>,
    s2: Seq<BlockView>,
)
    ensures
        area_elements(names, a, s1 + s2) == match area_elements(names, a, s1) {
            Err(x) => Err(x),
            Ok((n, b)) => area_elements(n, b, s2),
        },
    decreases s1.len(),
{
    if s1.len() == 0 {
        assert(s1 + s2 =~= s2);
    } else {
        assert((s1 + s2)[0] == s1[0]);
        assert((s1 + s2).drop_first() =~= s1.drop_first() + s2);
        match element_step(names, a, s1[0]) {
            Err(_) => {},
            Ok((n, b)) => {
                lemma_elements_concat(n, b, s1.drop_first(), s2);
            },
        }
    }
}

/// A `router` block can be moved past router blocks of other identities.
proof fn lemma_router_block_moves_back(
    names: Map<u64, Seq<char>>,
    a: AreaView,
    e: BlockView,
    es: Seq<BlockView>,
)
    requires
        has_prefix(e.head, "router "@),
        all_router_blocks(es),
        disjoint_routers(seq![e], es),
        area_elements(names, a, seq![e] + es) is Ok,
    ensures
        area_elements(names, a, es + seq![e]) == area_elements(names, a, seq![e] + es),
    decreases es.len(),
{
    if es.len() == 0 {
        assert(es + seq![e] =~= seq![e] + es);
    } else {
        let f = es[0];
        let rest = es.drop_first();
        assert(has_prefix(f.head, "router "@));
        assert(router_block_id(seq![e][0]) != router_block_id(es[0]));
        assert(seq![e] + es =~= seq![e, f] + rest);
        lemma_elements_concat(names, a, seq![e, f], rest);
        lemma_disjoint_router_blocks_commute(names, a, e, f);
        assert(seq![f, e] + rest =~= seq![f] + (seq![e] + rest));
        lemma_elements_concat(names, a, seq![f, e], rest);
        lemma_elements_concat(names, a, seq![f], seq![e] + rest);
        assert(seq![f].drop_first() =~= Seq::<BlockView>::empty());
        let (n1, b1) = area_elements(names, a, seq![f])->Ok_0;
        assert forall|i: int| 0 <= i < rest.len() implies has_prefix(
            (#[trigger] rest[i]).head,
            "router "@,
        ) by {
            assert(rest[i] == es[i + 1]);
        }
        assert forall|i: int, j: int|
            0 <= i < seq![e].len() && 0 <= j < rest.len() implies router_block_id(
            #[trigger] seq![e][i],
        ) != router_block_id(#[trigger] rest[j]) by {
            assert(rest[j] == es[j + 1]);
            assert(router_block_id(seq![e][0]) != router_block_id(es[j + 1]));
        }
        lemma_router_block_moves_back(n1, b1, e, rest);
        assert(es + seq![e] =~= seq![f] + (rest + seq![e]));
        lemma_elements_concat(names, a, seq![f], rest + seq![e]);
    }
}

/// Within one area, the router blocks of two dumps that describe routers of
/// different identities can be merged in either order: when one order
/// succeeds, the other gives the same names and the same area.
pub proof fn lemma_disjoint_router_sequences_commute(
    names: Map<u64, Seq<char>>,
    a: AreaView,
    es1: Seq<BlockView>,
    es2: Seq<BlockView>,
)
    requires
        all_router_blocks(es1),
        all_router_blocks(es2),
        disjoint_routers(es1, es2),
        area_elements(names, a, es1 + es2) is Ok,
    ensures
        area_elements(names, a, es2 + es1) == area_elements(names, a, es1 + es2),
    decreases es1.len(),
{
    if es1.len() == 0 {
        assert(es1 + es2 =~= es2);
        assert(es2 + es1 =~= es2);
    } else {
        let e = es1.last();
        let r1 = es1.drop_last();
        assert(es1 + es2 =~= r1 + (seq![e] + es2));
        lemma_elements_concat(names, a, r1, seq![e] + es2);
        let (n1, b1) = area_elements(names, a, r1)->Ok_0;
        assert(has_prefix(es1[es1.len() - 1].head, "router "@));
        assert forall|i: int, j: int|
            0 <= i < seq![e].len() && 0 <= j < es2.len() implies router_block_id(
            #[trigger] seq![e][i],
        ) != router_block_id(#[trigger] es2[j]) by {
            assert(router_block_id(es1[es1.len() - 1]) != router_block_id(es2[j]));
        }
        lemma_router_block_moves_back(n1, b1, e, es2);
        assert(r1 + (es2 + seq![e]) =~= (r1 + es2) + seq![e]);
        lemma_elements_concat(names, a, r1, es2 + seq![e]);
        lemma_elements_concat(names, a, r1 + es2, seq![e]);
        assert forall|i: int| 0 <= i < r1.len() implies has_prefix((#[trigger] r1[i]).head, "router "@) by {
            assert(r1[i] == es1[i]);
        }
        assert forall|i: int, j: int|
            0 <= i < r1.len() && 0 <= j < es2.len() implies router_block_id(#[trigger] r1[i])
            != router_block_id(#[trigger] es2[j]) by {
            assert(r1[i] == es1[i]);
        }
        lemma_router_sequences_prefix_ok(names, a, r1, es2, e);
        lemma_disjoint_router_sequences_commute(names, a, r1, es2);
        assert(es2 + es1 =~= (es2 + r1) + seq![e]);
        lemma_elements_concat(names, a, es2 + r1, seq![e]);
    }
}

proof fn lemma_router_sequences_prefix_ok(
    names: Map<u64, Seq<char>>,
    a: AreaView,
    r1: Seq<BlockView>,
    es2: Seq<BlockView>,
    e: BlockView,
)
    requires
        area_elements(names, a, (r1 + es2) + seq![e]) is Ok,
    ensures
        area_elements(names, a, r1 + es2) is Ok,
{
    lemma_elements_concat(names, a, r1 + es2, seq![e]);
}

/// Where the area called `n` stands, searching from the most recent.
pub(crate) fn find_area(areas: &Vec<(String, AreaData)>, n: &str) -> (r: Option<usize>)
    ensures
        match r {
            Some(i) => i == area_index(area_views(areas@), n@) && i < areas@.len(),
            None => area_index(area_views(areas@), n@) == -1,
        },
{
    let ghost av = area_views(areas@);
    let mut i: usize = areas.len();
    assert(av.take(i as int) =~= av);
    while i > 0
        invariant
            i <= areas.len(),
            av == area_views(areas@),
            area_index(av, n@) == area_index(av.take(i as int), n@),
        decreases i,
    {
        assert(av.take(i as int).drop_last() =~= av.take(i - 1));
        if text_is(areas[i - 1].0.as_str(), n) {
            return Some(i - 1);
        }
        i = i - 1;
    }
    None
}

impl Topology {
    /// A topology with no areas and no names.
    pub fn new() -> (r: Topology)
        ensures
            r@.interned == Map::<u64, Seq<char>>::empty(),
            r@.areas == Seq::<(Seq<char>, AreaView)>::empty(),
            r.wf(),
    {
        let t = Topology { interned: BTreeMap::new(), areas: Vec::new() };
        assert(t@.interned =~= Map::<u64, Seq<char>>::empty());
        assert(t@.areas =~= Seq::<(Seq<char>, AreaView)>::empty());
        t
    }

    /// Applies one `area <name>` block.
    pub fn merge_area(&mut self, b: &Block) -> (r: Result<(), TopologyParseError>)
        requires
            old(self).wf(),
        ensures
            final(self).wf(),
            match area_step(old(self)@, b@) {
                Ok(t) => r is Ok && final(self)@ == t,
                Err(e) => r is Err && r->Err_0@ == e,
            },
    {
        let name = match try_eat_pfx(b.head.as_str(), "area ") {
            Some(n) => n,
            None => return Err(TopologyParseError::UnknownStructure(1)),
        };
        assert(views(b.subs@) =~= b@.subs);
        let ghost t0 = self@;
        match find_area(&self.areas, name) {
            Some(i) => {
                let (nm, mut ad) = self.areas.remove(i);
                proof {
                    lemma_area_index(t0.areas, name@);
                    assert(old(self).areas@[i as int].1.wf());
                    assert(area_views(old(self).areas@)[i as int] == (nm@, ad@));
                }
                ad.merge_elements(&mut self.interned, &b.subs)?;
                self.areas.insert(i, (nm, ad));
                proof {
                    assert(area_views(self.areas@) =~= t0.areas.update(i as int, (name@, ad@)));
                    assert forall|k: int| 0 <= k < self.areas@.len() implies (
                    #[trigger] self.areas@[k]).1.wf() by {
                        if k != i {
                            assert(self.areas@[k] == old(self).areas@[k]);
                        }
                    }
                }
            },
            None => {
                let mut ad = AreaData { routers: BTreeMap::new(), networks: BTreeMap::new() };
                proof {
                    assert(ad@.routers =~= Map::<u64, RouterView>::empty());
                    assert(ad@.networks =~= Map::<u64, NetworkView>::empty());
                }
                ad.merge_elements(&mut self.interned, &b.subs)?;
                self.areas.push((name.to_owned(), ad));
                proof {
                    assert(area_views(self.areas@) =~= t0.areas.push((name@, ad@)));
                    assert forall|k: int| 0 <= k < self.areas@.len() implies (
                    #[trigger] self.areas@[k]).1.wf() by {
                        if k < old(self).areas@.len() {
                            assert(self.areas@[k] == old(self).areas@[k]);
                        }
                    }
                }
            },
        }
        Ok(())
    }
}

/// Merges the dump `s` into `base_topo`.
///
/// The first line must start with the `BIRD v` banner; every other
/// top-level block must be an `area <name>` block. Areas, routers and
/// networks that are already known are extended in place.
pub fn parse_topology(base_topo: Topology, s: &str) -> (r: Result<Topology, TopologyParseError>)
    requires
        base_topo.wf(),
    ensures
        match merge_dump(base_topo@, s@) {
            Ok(t) => r is Ok && r->Ok_0@ == t && r->Ok_0.wf(),
            Err(e) => r is Err && r->Err_0@ == e,
        },
{
    let blocks = parse_nested_blocks(s);
    let ghost f = crate::block::forest_of(s@);
    if blocks.len() == 0 {
        return Err(TopologyParseError::UnknownStructure(0));
    }
    if try_eat_pfx(blocks[0].head.as_str(), "BIRD v").is_none() {
        assert(f[0] == blocks@[0]@);
        return Err(TopologyParseError::UnknownStructure(0));
    }
    assert(f[0] == blocks@[0]@);
    assert(merge_dump(base_topo@, s@) == area_blocks(base_topo@, f.drop_first()));
    let ghost b0 = base_topo@;
    let mut topo = base_topo;
    let ghost ls = f.drop_first();
    let mut i: usize = 1;
    assert(ls.skip(0) =~= ls);
    while i < blocks.len()
        invariant
            1 <= i <= blocks.len(),
            views(blocks@) == f,
            ls == f.drop_first(),
            topo.wf(),
            b0 == base_topo@,
            merge_dump(b0, s@) == area_blocks(b0, ls),
            area_blocks(b0, ls) == area_blocks(topo@, ls.skip(i - 1)),
        decreases blocks.len() - i,
    {
        assert(ls.skip(i - 1).drop_first() =~= ls.skip(i as int));
        assert(ls.skip(i - 1)[0] == blocks@[i as int]@);
        let ghost cur = topo@;
        let ghost rest = ls.skip(i - 1);
        assert(rest.len() > 0);
        match topo.merge_area(&blocks[i]) {
            Ok(()) => {},
            Err(e) => {
                assert(area_blocks(cur, rest) == Err::<TopologyView, ParseFailure>(e@));
                return Err(e);
            },
        }
        i = i + 1;
    }
    assert(ls.skip(i - 1) =~= seq![]);
    Ok(topo)
}

impl RouterData {
    /// Whether the router was reported unreachable.
    pub fn is_unreachable(&self) -> (r: bool)
        ensures
            r == (self.distance == 255),
    {
        self.distance == UNREACHABLE
    }
}

impl NetworkData {
    /// Whether the network was reported unreachable.
    pub fn is_unreachable(&self) -> (r: bool)
        ensures
            r == (self.distance == 255),
    {
        self.distance == UNREACHABLE
    }
}

} // verus!
