use ospf_viz::entry::{EntryType, Metric};
use ospf_viz::graph::{build_graph, project, DetailValue, Edge, Group};
use ospf_viz::topology::{parse_topology, router2id, Topology, TopologyParseError};

const BANNER: &str = "BIRD v2.0.8 ready.\n";

fn dump(body: &str) -> String {
    format!("{}{}", BANNER, body)
}

fn area_of<'a>(t: &'a Topology, name: &str) -> &'a ospf_viz::topology::AreaData {
    &t.areas.iter().find(|(n, _)| n == name).unwrap().1
}

#[test]
fn missing_banner() {
    let r = parse_topology(Topology::new(), "area 0.0.0.0\n");
    assert_eq!(r.err().unwrap(), TopologyParseError::UnknownStructure(0));
    let r = parse_topology(Topology::new(), "");
    assert_eq!(r.err().unwrap(), TopologyParseError::UnknownStructure(0));
}

#[test]
fn structure_errors() {
    let r = parse_topology(Topology::new(), &dump("zone 1\n"));
    assert_eq!(r.err().unwrap(), TopologyParseError::UnknownStructure(1));
    let r = parse_topology(Topology::new(), &dump("area 0.0.0.0\n\tswitch S\n"));
    assert_eq!(r.err().unwrap(), TopologyParseError::UnknownStructure(2));
    let r = parse_topology(
        Topology::new(),
        &dump("area 0.0.0.0\n\trouter R1\n\t\tdistance 1\n\t\t\tnested\n"),
    );
    assert_eq!(r.err().unwrap(), TopologyParseError::UnknownStructure(3));
}

#[test]
fn entry_error_carries_line() {
    let r = parse_topology(Topology::new(), &dump("area 0.0.0.0\n\trouter R1\n\t\trouter R2 metric\n"));
    match r.err().unwrap() {
        TopologyParseError::InvalidEntry { ent, err } => {
            assert_eq!(ent, "router R2 metric");
            assert_eq!(err, ospf_viz::entry::EntryParseError::InvalidStructure(3));
        }
        other => panic!("unexpected {:?}", other),
    }
}

#[test]
fn invalid_distance() {
    let r = parse_topology(Topology::new(), &dump("area 0.0.0.0\n\trouter R1\n\t\tdistance 256\n"));
    assert_eq!(r.err().unwrap(), TopologyParseError::InvalidDistance);
}

#[test]
fn distance_conflict() {
    let r = parse_topology(
        Topology::new(),
        &dump("area 0.0.0.0\n\trouter R1\n\t\tdistance 5\n\trouter R1\n\t\tdistance 9\n"),
    );
    assert_eq!(r.err().unwrap(), TopologyParseError::DistanceMismatch(5, 9));
    let r = parse_topology(
        Topology::new(),
        &dump("area 0.0.0.0\n\trouter R1\n\t\tunreachable\n\trouter R1\n\t\tunreachable\n"),
    );
    assert!(r.is_ok());
    let r = parse_topology(
        Topology::new(),
        &dump("area 0.0.0.0\n\trouter R1\n\t\tdistance 5\n\trouter R1\n\t\tunreachable\n"),
    );
    assert_eq!(r.err().unwrap(), TopologyParseError::DistanceMismatch(5, 255));
    // 255 is the unset sentinel: a distance after `unreachable` is no conflict.
    let t = parse_topology(
        Topology::new(),
        &dump("area 0.0.0.0\n\trouter R1\n\t\tunreachable\n\trouter R1\n\t\tdistance 5\n"),
    )
    .unwrap();
    let id = router2id("R1");
    let r1 = area_of(&t, "0.0.0.0").routers.get(&id).unwrap();
    assert_eq!(r1.distance, 5);
}

#[test]
fn conflict_across_merges() {
    let t = parse_topology(Topology::new(), &dump("area 0.0.0.0\n\tnetwork N\n\t\tdistance 3\n")).unwrap();
    let r = parse_topology(t, &dump("area 0.0.0.0\n\tnetwork N\n\t\tdistance 4\n"));
    assert_eq!(r.err().unwrap(), TopologyParseError::DistanceMismatch(3, 4));
}

#[test]
fn merges_accumulate_and_entries_stay_sorted() {
    let t = parse_topology(
        Topology::new(),
        &dump("area 0.0.0.0\n\trouter R1\n\t\tdistance 1\n\t\tstubnet 10.0.0.0/24 metric 5\n\t\trouter R3 metric 7\n"),
    )
    .unwrap();
    let t = parse_topology(
        t,
        &dump("area 0.0.0.0\n\trouter R1\n\t\trouter R2 metric 7\n\t\trouter R3 metric 7\n\tnetwork 10.1.0.0/24\n\t\tdr R1\n\t\trouter R1\n\t\trouter R2\narea 0.0.0.1\n\trouter R9\n"),
    )
    .unwrap();
    assert_eq!(t.areas.len(), 2);
    let bb = area_of(&t, "0.0.0.0");
    let r1 = bb.routers.get(&router2id("R1")).unwrap();
    assert_eq!(r1.distance, 1);
    let objs: Vec<(EntryType, &str)> = r1.entries.iter().map(|e| (e.typ, e.obj.as_str())).collect();
    assert_eq!(
        objs,
        vec![(EntryType::Router, "R2"), (EntryType::Router, "R3"), (EntryType::StubNet, "10.0.0.0/24")]
    );
    let n = bb.networks.get(&router2id("10.1.0.0/24")).unwrap();
    assert_eq!(n.dr, router2id("R1"));
    assert_eq!(n.routers.len(), 2);
    assert!(n.is_unreachable());
    assert_eq!(t.interned.get(&router2id("R9")).unwrap(), "R9");
    assert_eq!(t.interned.len(), 4);
    assert!(t.interned.get(&router2id("R3")).is_none());
    assert_eq!(router2id("R1"), router2id("R1"));
    assert_ne!(router2id("R1"), router2id("R2"));
}

#[test]
fn router_lists() {
    let t = parse_topology(
        Topology::new(),
        &dump("area 0.0.0.0\n\trouter R1\n\t\tdistance 2\n\t\trouter R2 metric 10\n\t\texternal 0.0.0.0/0 metric2 20\n\t\tstubnet 10.0.0.0/24 metric 1\n"),
    )
    .unwrap();
    let r1 = area_of(&t, "0.0.0.0").routers.get(&router2id("R1")).unwrap();
    assert_eq!(r1.neighbors(), vec![("R2".to_string(), 10)]);
    assert_eq!(
        r1.conns(),
        vec![("0.0.0.0/0".to_string(), 1020), ("10.0.0.0/24".to_string(), 1)]
    );
    assert!(!r1.is_unreachable());
    let d = r1.get_details();
    let items: Vec<(&str, &DetailValue)> = d.items.iter().map(|(k, v)| (k.as_str(), v)).collect();
    assert_eq!(
        items,
        vec![
            ("distance", &DetailValue::Number(2)),
            ("External", &DetailValue::Texts(vec!["0.0.0.0/0 metric2 20".to_string()])),
            ("Router", &DetailValue::Texts(vec!["R2 metric 10".to_string()])),
            ("StubNet", &DetailValue::Texts(vec!["10.0.0.0/24 metric 1".to_string()])),
        ]
    );
    assert_eq!(Metric::External(20).weight(), 1020);
}

#[test]
fn end_to_end_two_routers() {
    let text = dump("area 0.0.0.0\n\trouter R1\n\t\tdistance 1\n\t\trouter R2 metric 10\n\trouter R2\n\t\tdistance 1\n");
    let g = build_graph(&vec![text]).unwrap();
    assert_eq!(g.nodes.len(), 2);
    let mut labels: Vec<&str> = g.nodes.iter().map(|n| n.label.as_str()).collect();
    labels.sort();
    assert_eq!(labels, vec!["R1", "R2"]);
    assert!(g.nodes.iter().all(|n| n.group == Group::RouterSelf));
    let (a, b) = (router2id("R1"), router2id("R2"));
    assert_eq!(g.edges, vec![Edge { from: a.min(b), to: a.max(b), length: 1 }]);
}

#[test]
fn both_directions_collapse() {
    let text = dump("area 0.0.0.0\n\trouter R1\n\t\tdistance 1\n\t\trouter R2 metric 250\n\trouter R2\n\t\tdistance 1\n\t\trouter R1 metric 250\n");
    let g = build_graph(&vec![text]).unwrap();
    let (a, b) = (router2id("R1"), router2id("R2"));
    assert_eq!(g.edges, vec![Edge { from: a.min(b), to: a.max(b), length: 3 }]);
}

#[test]
fn lengths_are_capped() {
    let text = dump("area 0.0.0.0\n\trouter R1\n\t\tdistance 1\n\t\texternal 0.0.0.0/0 metric2 65535\n\t\trouter R2 metric 99\n");
    let g = build_graph(&vec![text]).unwrap();
    let r1 = router2id("R1");
    let ext = router2id("0.0.0.0/0");
    let r2 = router2id("R2");
    assert!(g.edges.contains(&Edge { from: r1.min(ext), to: r1.max(ext), length: 666 }));
    assert!(g.edges.contains(&Edge { from: r1.min(r2), to: r1.max(r2), length: 1 }));
    assert_eq!(g.edges.len(), 2);
    let big = dump("area 0.0.0.0\n\trouter R1\n\t\trouter R2 metric 65535\n");
    let g = build_graph(&vec![big]).unwrap();
    assert_eq!(g.edges[0].length, 656);
}

#[test]
fn network_nodes_and_groups() {
    let text = dump("area 0.0.0.0\n\trouter R1\n\t\tdistance 1\n\t\tstubnet 10.0.0.0/24 metric 5\n\trouter R2\n\t\tunreachable\n\tnetwork 10.1.0.0/24\n\t\tdistance 2\n\t\tdr R1\n\t\trouter R1\n\t\trouter R3\narea 0.0.0.1\n\trouter R4\n\t\tdistance 1\n");
    let g = build_graph(&vec![text]).unwrap();
    let find = |label: &str| g.nodes.iter().find(|n| n.label == label).unwrap();
    assert_eq!(find("R1").group, Group::RouterSelf);
    assert_eq!(find("R2").group, Group::Unreachable);
    assert_eq!(find("R3").group, Group::Unreachable);
    assert_eq!(find("R4").group, Group::Unreachable);
    assert_eq!(find("10.1.0.0/24").group, Group::Network);
    assert_eq!(find("10.0.0.0/24").group, Group::Network);
    assert_eq!(find("10.0.0.0/24").details.items.len(), 0);
    assert_eq!(
        find("10.1.0.0/24").details.items,
        vec![("distance".to_string(), DetailValue::Number(2))]
    );
    assert_eq!(g.nodes.len(), 6);
    let net = router2id("10.1.0.0/24");
    let r1 = router2id("R1");
    let r3 = router2id("R3");
    assert!(g.edges.contains(&Edge { from: net.min(r1), to: net.max(r1), length: 0 }));
    assert!(g.edges.contains(&Edge { from: net.min(r3), to: net.max(r3), length: 0 }));
    assert_eq!(g.edges.len(), 3);
    for w in g.edges.windows(2) {
        assert!((w[0].from, w[0].to, w[0].length) < (w[1].from, w[1].to, w[1].length));
    }
}

#[test]
fn no_areas_no_graph() {
    assert!(build_graph(&vec![]).is_none());
    assert!(build_graph(&vec![BANNER.to_string()]).is_none());
    assert!(build_graph(&vec![dump("zone\n")]).is_none());
    assert!(project(&Topology::new()).is_none());
    let g = build_graph(&vec![dump("area 0.0.0.1\n\trouter R1\n\t\tdistance 1\n")]).unwrap();
    assert_eq!(g.edges.len(), 0);
    assert_eq!(g.nodes.len(), 1);
    assert_eq!(g.nodes[0].group, Group::Unreachable);
}

fn router_summary(t: &Topology) -> Vec<(u64, u8, Vec<String>)> {
    let bb = area_of(t, "0.0.0.0");
    bb.routers
        .iter()
        .map(|(k, r)| (*k, r.distance, r.entries.iter().map(|e| format!("{:?} {} {:?}", e.typ, e.obj, e.metric)).collect()))
        .collect()
}

#[test]
fn merge_order_does_not_matter_for_disjoint_dumps() {
    let t1 = dump("area 0.0.0.0\n\trouter R1\n\t\tdistance 1\n\t\trouter R2 metric 10\n");
    let t2 = dump("area 0.0.0.0\n\trouter R2\n\t\tdistance 2\n\t\trouter R1 metric 10\n\t\tstubnet 10.0.0.0/24 metric 3\n");
    let a = parse_topology(parse_topology(Topology::new(), &t1).unwrap(), &t2).unwrap();
    let b = parse_topology(parse_topology(Topology::new(), &t2).unwrap(), &t1).unwrap();
    assert_eq!(router_summary(&a), router_summary(&b));
    assert_eq!(a.interned, b.interned);
    assert_eq!(router_summary(&a).len(), 2);
}

#[test]
fn merging_identical_data_twice_changes_nothing() {
    let t1 = dump("area 0.0.0.0\n\trouter R1\n\t\tdistance 1\n\t\trouter R2 metric 10\n\t\trouter R2 metric 10\n");
    let once = parse_topology(Topology::new(), &t1).unwrap();
    let twice = parse_topology(parse_topology(Topology::new(), &t1).unwrap(), &t1).unwrap();
    assert_eq!(router_summary(&once), router_summary(&twice));
    assert_eq!(router_summary(&once)[0].2.len(), 1);
    assert_eq!(twice.areas.len(), 1);
}
