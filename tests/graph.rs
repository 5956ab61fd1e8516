use membership::graph::{Action, Error, Event, Graph, NodeId};
use membership::hash::compute_hash;
use sha3::{Digest, Sha3_256};

fn genesis(creator: u64, members: &[u64]) -> Event {
    Event::new(
        NodeId(creator),
        None,
        None,
        Action::Init(members.iter().map(|m| NodeId(*m)).collect()),
    )
}

#[test]
fn compute_hash_works() {
    let b = "Hash me";
    // Compute the hash using the function.
    let ser = bincode::serialize(b).unwrap();
    let hash1 = compute_hash(&ser);
    // Compute the same hash inline.
    let mut hasher = Sha3_256::new();
    hasher.input(&ser);
    let hash2 = hasher.result();
    // The two hashes should be the same.
    assert_eq!(hash1.0, hash2.as_slice());
}

#[test]
fn compute_hash_of_empty_input() {
    let hash = compute_hash(&[]);
    let expected = Sha3_256::digest(&[]);
    assert_eq!(hash.0, expected.as_slice());
    assert_ne!(hash.0, [0u8; 32]);
}

#[test]
fn encoding_matches_bincode_layout() {
    let parent = compute_hash(b"parent");
    let add = Event::new(NodeId(7), Some(parent), None, Action::Add(NodeId(9)));
    let expected = bincode::serialize(&(7u64, Some(parent.0), None::<[u8; 32]>, 1u32, 9u64)).unwrap();
    assert_eq!(add.encode().unwrap(), expected);

    let remove = Event::new(NodeId(1), None, Some(parent), Action::Remove(NodeId(2)));
    let expected = bincode::serialize(&(1u64, None::<[u8; 32]>, Some(parent.0), 2u32, 2u64)).unwrap();
    assert_eq!(remove.encode().unwrap(), expected);

    let init = genesis(3, &[1, 2, 3]);
    let expected = bincode::serialize(&(
        3u64,
        None::<[u8; 32]>,
        None::<[u8; 32]>,
        0u32,
        vec![1u64, 2, 3],
    ))
    .unwrap();
    assert_eq!(init.encode().unwrap(), expected);
    let hash = init.hash().unwrap();
    assert_eq!(hash, compute_hash(&expected));
}

#[test]
fn unsorted_genesis_has_no_canonical_encoding() {
    let init = genesis(3, &[2, 1]);
    assert!(init.encode().is_err());
    let dup = genesis(3, &[1, 1]);
    assert!(dup.hash().is_err());
    let mut graph = Graph::new();
    assert!(matches!(graph.insert(init).map(|r| r.index), Err(Error::Hash(_))));
    assert_eq!(graph.len(), 0);
}

#[test]
fn insert_twice_returns_the_same_index() {
    let mut graph = Graph::new();
    let first = graph.insert(genesis(1, &[1, 2, 3])).unwrap().index;
    assert_eq!(graph.len(), 1);
    let second = graph.insert(genesis(1, &[1, 2, 3])).unwrap().index;
    assert_eq!(first, second);
    assert_eq!(graph.len(), 1);
    let other = graph.insert(genesis(2, &[1, 2, 3])).unwrap().index;
    assert_eq!(other, 1);
    assert_eq!(graph.len(), 2);
}

#[test]
fn default_graph_is_empty() {
    let graph = Graph::default();
    assert_eq!(graph.len(), 0);
    assert!(graph.get_by_index(0).is_none());
}

#[test]
fn many_events_stay_distinct() {
    let mut graph = Graph::new();
    let mut prev = None;
    for i in 0..50u64 {
        let e = Event::new(NodeId(1), prev, None, Action::Add(NodeId(i)));
        let h = e.hash().unwrap();
        assert_eq!(graph.insert(e).unwrap().index, i as usize);
        prev = Some(h);
    }
    assert_eq!(graph.len(), 50);
    let last = graph.get_by_hash(&prev.unwrap()).unwrap();
    assert_eq!(last.index, 49);
    let visited = graph.ancestors(last).to_vec();
    assert_eq!(visited.len(), 50);
    assert_eq!(visited[0].index, 49);
    assert_eq!(visited[49].index, 0);
}

#[test]
fn lookups_by_hash_and_index() {
    let mut graph = Graph::new();
    let e = genesis(1, &[1, 2]);
    let hash = e.hash().unwrap();
    assert!(!graph.contains(&hash));
    assert_eq!(graph.get_index(&hash), None);
    graph.insert(e).unwrap();
    assert!(graph.contains(&hash));
    assert_eq!(graph.get_index(&hash), Some(0));
    let by_hash = graph.get_by_hash(&hash).unwrap();
    assert_eq!(by_hash.index, 0);
    assert_eq!(*by_hash.creator_id(), NodeId(1));
    assert!(by_hash.self_parent().is_none());
    assert!(by_hash.other_parent().is_none());
    assert!(matches!(by_hash.action(), Action::Init(ids) if ids == &vec![NodeId(1), NodeId(2)]));
    assert!(graph.get_by_index(0).is_some());
    assert!(graph.get_by_index(1).is_none());
    assert_eq!(graph.hash_at(0), hash);
}

#[test]
fn dangling_parent_is_rejected() {
    let mut graph = Graph::new();
    graph.insert(genesis(1, &[1, 2])).unwrap();
    let unknown = compute_hash(b"nowhere");
    let bad = Event::new(NodeId(2), None, Some(unknown), Action::Add(NodeId(3)));
    assert!(matches!(graph.insert(bad).map(|r| r.index), Err(Error::DanglingParent)));
    assert_eq!(graph.len(), 1);
    let bad_self = Event::new(NodeId(2), Some(unknown), None, Action::Add(NodeId(3)));
    assert!(matches!(graph.insert(bad_self).map(|r| r.index), Err(Error::DanglingParent)));
    assert_eq!(graph.len(), 1);
}

/// Builds: g (genesis), a1 (self-parent g), b1 (other-parent g), c (self a1, other b1),
/// and an unrelated genesis u.
fn diamond() -> (Graph, [membership::hash::Hash; 5]) {
    let mut graph = Graph::new();
    let g = genesis(1, &[1, 2]);
    let hg = g.hash().unwrap();
    graph.insert(g).unwrap();
    let a1 = Event::new(NodeId(1), Some(hg), None, Action::Add(NodeId(3)));
    let ha1 = a1.hash().unwrap();
    graph.insert(a1).unwrap();
    let b1 = Event::new(NodeId(2), None, Some(hg), Action::Remove(NodeId(1)));
    let hb1 = b1.hash().unwrap();
    graph.insert(b1).unwrap();
    let u = genesis(9, &[9]);
    let hu = u.hash().unwrap();
    graph.insert(u).unwrap();
    let c = Event::new(NodeId(1), Some(ha1), Some(hb1), Action::Add(NodeId(4)));
    let hc = c.hash().unwrap();
    graph.insert(c).unwrap();
    (graph, [hg, ha1, hb1, hu, hc])
}

#[test]
fn ancestors_visit_each_ancestor_once_in_breadth_first_order() {
    let (graph, hashes) = diamond();
    let start = graph.get_by_hash(&hashes[4]).unwrap();
    let visited: Vec<usize> = graph.ancestors(start).to_vec().iter().map(|r| r.index).collect();
    // c, then its other-parent b1, then its self-parent a1, then g once.
    assert_eq!(visited, vec![4, 2, 1, 0]);
}

#[test]
fn ancestors_of_a_root_are_itself() {
    let (graph, hashes) = diamond();
    let start = graph.get_by_hash(&hashes[3]).unwrap();
    let visited: Vec<usize> = graph.ancestors(start).to_vec().iter().map(|r| r.index).collect();
    assert_eq!(visited, vec![3]);
}

#[test]
fn ancestor_traversal_ends() {
    let (graph, hashes) = diamond();
    let start = graph.get_by_hash(&hashes[4]).unwrap();
    let mut it = graph.ancestors(start);
    let mut count = 0;
    while let Some(r) = it.next() {
        assert!(r.index < graph.len());
        count += 1;
    }
    assert_eq!(count, 4);
    assert!(it.next().is_none());
}

#[test]
fn event_refs_compare_by_index() {
    let (graph, _) = diamond();
    let a = graph.get_by_index(1).unwrap();
    let b = graph.get_by_index(1).unwrap();
    let c = graph.get_by_index(2).unwrap();
    assert!(a == b);
    assert!(a != c);
    assert!(a < c);
    assert!(c > b);
    assert!(a <= b);
}
