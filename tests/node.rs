use gameoflife::universe::node::Node;
use gameoflife::universe::node::NodeId;
use gameoflife::universe::node::SubNode;
use gameoflife::universe::rect::Rectangle;
use gameoflife::universe::space::BitSpace;
use gameoflife::universe::Universe;

#[test]
fn rectangle_getters() {
    let r = Rectangle::new(3, 7);
    assert_eq!(r.width(), 3);
    assert_eq!(r.height(), 7);
}

#[test]
fn node_id_and_sub_node() {
    let id = NodeId::new(42);
    assert_eq!(id.index(), 42);
    let s = SubNode::new(NodeId::new(1), NodeId::new(2), NodeId::new(3), NodeId::new(4));
    assert_eq!(s.nw().index(), 1);
    assert_eq!(SubNode::ne(&s).index(), 2);
    assert_eq!(s.sw().index(), 3);
    assert_eq!(s.se().index(), 4);
    assert_eq!(s, SubNode::new(NodeId::new(1), NodeId::new(2), NodeId::new(3), NodeId::new(4)));
}

#[test]
fn empty_leaf() {
    let n = Node::new(4, 4);
    assert!(n.has_space());
    assert!(!n.has_children());
    assert_eq!(n.population(), 0);
    assert_eq!(n.level(), 0);
    assert_eq!(n.rect().width(), 4);
    assert_eq!(n.space().len(), 16);
    assert_eq!(n.get_cell(3, 3), Ok(false));
    assert!(n.get_cell(4, 0).is_err());
    assert!(n.get_cell(0, 4).is_err());
}

#[test]
fn leaf_with_bits_counts_population() {
    let mut u = Universe::new(8, 8);
    u.set_cells(&[(0, 0), (1, 0), (3, 3)]);
    let empty = u.node(8, 8);
    let cells: BitSpace = u.build_bitspace_fast(empty);
    assert_eq!(cells.len(), 64);
    let bits = u.get_cells();
    let n = Node::with_bits(8, 8, &bits);
    assert_eq!(n.population(), 3);
    assert_eq!(n.space().len(), 64);
    // leaves are read row after row: index row * width + col
    assert_eq!(n.get_cell(0, 0), Ok(true));
    assert_eq!(n.get_cell(0, 1), Ok(true));
    assert_eq!(n.get_cell(0, 2), Ok(false));
}

#[test]
fn internal_node_has_no_cells_of_its_own() {
    let n = Node::with_children(8, 8, Box::new(SubNode::new(NodeId::new(0), NodeId::new(0), NodeId::new(0), NodeId::new(0))), 0, 1);
    assert!(n.has_children());
    assert!(!n.has_space());
    assert_eq!(n.level(), 1);
    assert!(n.get_cell(0, 0).is_err());
    assert_eq!(n.children().as_ref().map(|c| c.nw().index()), Some(0));
}

#[test]
fn default_node_is_small_dead_leaf() {
    let n = Node::default();
    assert_eq!(n.rect().width(), 2);
    assert_eq!(n.rect().height(), 2);
    assert_eq!(n.population(), 0);
    assert_eq!(n.space().len(), 4);
}
