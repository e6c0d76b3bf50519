use feather_db::LinkGraph;
use feather_db::DB;

#[test]
fn link_twice_gives_one_edge() {
    let mut db = DB::new(4);
    db.link(1, 2);
    db.link(1, 2);
    assert_eq!(db.links_from(1), vec![2]);
    assert_eq!(db.links().len(), 1);
    assert_eq!(db.links().edges(), &vec![(1, 2)]);
}

#[test]
fn link_needs_no_entries() {
    let mut db = DB::new(4);
    db.link(100, 200);
    assert!(db.get("text", 100).is_none());
    assert!(db.get("text", 200).is_none());
    assert_eq!(db.links_from(100), vec![200]);
    assert_eq!(db.links_to(200), vec![100]);
    db.add(100, &[0, 0, 0, 0]).unwrap();
    assert_eq!(db.links_from(100), vec![200]);
}

#[test]
fn links_are_directed() {
    let mut g = LinkGraph::new();
    g.link(1, 2);
    assert!(g.contains(1, 2));
    assert!(!g.contains(2, 1));
    assert_eq!(g.links_from(2), Vec::<u64>::new());
    assert_eq!(g.links_to(1), Vec::<u64>::new());
    g.link(2, 1);
    assert!(g.contains(2, 1));
    assert_eq!(g.len(), 2);
}

#[test]
fn links_from_and_to_are_ascending_sets() {
    let mut g = LinkGraph::new();
    let pairs = [(5, 9), (1, 7), (5, 3), (5, 9), (2, 9), (5, 0), (9, 9), (1, 7), (0, 0), (5, u64::MAX)];
    for (from, to) in pairs {
        g.link(from, to);
    }
    assert_eq!(g.len(), 8);
    assert_eq!(g.links_from(5), vec![0, 3, 9, u64::MAX]);
    assert_eq!(g.links_from(1), vec![7]);
    assert_eq!(g.links_from(3), Vec::<u64>::new());
    assert_eq!(g.links_to(9), vec![2, 5, 9]);
    assert_eq!(g.links_to(0), vec![0, 5]);
    assert_eq!(
        g.edges(),
        &vec![(0, 0), (1, 7), (2, 9), (5, 0), (5, 3), (5, 9), (5, u64::MAX), (9, 9)]
    );
}

#[test]
fn self_link_is_an_edge() {
    let mut g = LinkGraph::new();
    g.link(4, 4);
    assert!(g.contains(4, 4));
    assert_eq!(g.links_from(4), vec![4]);
    assert_eq!(g.links_to(4), vec![4]);
}

#[test]
fn empty_graph_has_no_edges() {
    let g = LinkGraph::new();
    assert_eq!(g.len(), 0);
    assert!(!g.contains(0, 0));
    assert_eq!(g.links_from(0), Vec::<u64>::new());
    assert_eq!(g.links_to(0), Vec::<u64>::new());
}

#[test]
fn graph_from_ordered_edges() {
    let g = LinkGraph::from_ordered(vec![(1, 2), (1, 3), (4, 0)]);
    assert_eq!(g.len(), 3);
    assert!(g.contains(1, 3));
    assert_eq!(g.links_from(1), vec![2, 3]);
}

#[test]
fn link_leaves_entries_alone() {
    let mut db = DB::new(1);
    db.add(1, &[7]).unwrap();
    let before = db.get("text", 1).unwrap().embedding.clone();
    db.link(1, 2);
    assert_eq!(db.get("text", 1).unwrap().embedding, before);
    assert_eq!(db.dim(), 1);
}
