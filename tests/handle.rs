use handlegraph2::handle::{Direction, Edge, Handle, NodeId, Orientation};

// Handle::pack is an isomorphism; Handle <=> (u63, bool)
#[test]
fn handle_is_isomorphism() {
    let u: u64 = 597283742;
    let h = Handle::pack(NodeId(u), true);
    assert_eq!(h.unpack_number(), u);
    assert_eq!(h.unpack_bit(), true);
}

#[test]
fn handle_flip() {
    let u: u64 = 597283742;
    let h1 = Handle::pack(NodeId(u), true);
    let h2 = h1.flip();

    let h3 = Handle::pack(NodeId(u), false);
    println!("{:?}, {}, {}", h1, h1.unpack_bit(), h1.is_reverse());
    println!("{:?}, {}, {}", h2, h2.unpack_bit(), h2.is_reverse());
    println!("{:?}, {}, {}", h3, h3.unpack_bit(), h3.is_reverse());

    assert_eq!(h1.unpack_number(), h2.unpack_number());
    assert_eq!(h1.unpack_bit(), true);
    assert_eq!(h2.unpack_bit(), false);
}

#[test]
fn pack_round_trip_on_edges_of_the_range() {
    for &id in &[0u64, 1, 2, 12345, (1u64 << 63) - 1] {
        for &rev in &[false, true] {
            let h = Handle::pack(NodeId(id), rev);
            assert_eq!(h.id(), NodeId(id));
            assert_eq!(h.is_reverse(), rev);
            assert_eq!(h.as_integer(), id * 2 + rev as u64);
        }
    }
}

#[test]
fn flip_is_an_involution() {
    let h = Handle::pack(NodeId(41), false);
    assert_eq!(h.flip().flip(), h);
    assert_eq!(h.flip().id(), h.id());
    assert_ne!(h.flip().is_reverse(), h.is_reverse());
    assert_eq!(h.flip().as_integer(), 83);
}

#[test]
fn forward_drops_the_orientation() {
    let r = Handle::pack(NodeId(7), true);
    let f = Handle::pack(NodeId(7), false);
    assert_eq!(r.forward(), f);
    assert_eq!(f.forward(), f);
}

#[test]
fn canonical_edge_is_the_same_both_ways() {
    let hs: Vec<Handle> = (0..6u64).map(Handle::from_integer).collect();
    for &a in &hs {
        for &b in &hs {
            assert_eq!(Edge::edge_handle(a, b), Edge::edge_handle(b.flip(), a.flip()));
        }
    }
}

#[test]
fn canonical_edge_values() {
    let a = Handle::from_integer(4);
    let b = Handle::from_integer(2);
    // 4 > flip(2) = 3, so the pair is turned around
    assert_eq!(Edge::edge_handle(a, b), Edge(Handle::from_integer(3), Handle::from_integer(5)));
    // 2 < flip(4) = 5: kept
    assert_eq!(Edge::edge_handle(b, a), Edge(b, a));
    // a == flip(b): the smaller of the two orientations
    let c = Handle::from_integer(6);
    assert_eq!(Edge::edge_handle(c, c.flip()), Edge(c, c.flip()));
    assert_eq!(Edge::edge_handle(c.flip(), c), Edge(c.flip(), c));
}

#[test]
fn node_id_conversions() {
    let n = NodeId::from(9u64);
    assert_eq!(u64::from(n), 9);
    assert_eq!(n.as_u64(), 9);
    assert!(Direction::Left != Direction::Right);
}

#[test]
fn new_takes_the_orientation() {
    assert_eq!(Handle::new(NodeId(5), Orientation::Forward), Handle::from_integer(10));
    assert_eq!(Handle::new(NodeId(5), Orientation::Backward), Handle::from_integer(11));
}
