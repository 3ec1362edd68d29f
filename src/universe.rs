//! The universe: a hash-consed quadtree of immutable nodes in an arena, the
//! tables that keep one handle per distinct content, and a memo table of
//! one-generation successors.
use crate::universe::intern::lemma_ids_distinct;
use crate::universe::intern::Interner;
use crate::universe::morton::coord_limit;
use crate::universe::morton::morton;
use crate::universe::morton::unmorton;
use crate::universe::morton::MortonSpace;
use crate::universe::node::Node;
use crate::universe::node::NodeId;
use crate::universe::node::SubNode;
use crate::universe::rect::Rectangle;
use crate::universe::space::count_true;
use crate::universe::space::max_bits;
use crate::universe::space::space_copy_range;
use crate::universe::space::space_get;
use crate::universe::space::space_len;
use crate::universe::space::BitSpace;
use crate::universe::model::area;
use crate::universe::model::grandchild;
use crate::universe::model::children_are;
use crate::universe::model::bit_symbols;
use crate::universe::model::block_at;
use crate::universe::model::cell;
use crate::universe::model::cell_lookup;
use crate::universe::model::center_step;
use crate::universe::model::content;
use crate::universe::model::dims_key;
use crate::universe::model::flat;
use crate::universe::model::flyer_cells;
use crate::universe::model::half;
use crate::universe::model::is_block;
use crate::universe::model::lemma_assemble_old;
use crate::universe::model::lemma_block_side;
use crate::universe::model::lemma_border_cells;
use crate::universe::model::lemma_cells_determine;
use crate::universe::model::lemma_cell_index_bound;
use crate::universe::model::lemma_cells_frame;
use crate::universe::model::lemma_centre_cells;
use crate::universe::model::lemma_centre_quarter_cells;
use crate::universe::model::lemma_combine_steps;
use crate::universe::model::lemma_horizontal_cells;
use crate::universe::model::lemma_quadrant_cells;
use crate::universe::model::lemma_sparse_block;
use crate::universe::model::lemma_steps_to_frame;
use crate::universe::model::lemma_torus_step;
use crate::universe::model::lemma_vertical_cells;
use crate::universe::model::lemma_window;
use crate::universe::model::lemma_wrap_cells;
use crate::universe::model::life_rule;
use crate::universe::model::memo_ok;
use crate::universe::model::neighbor_count;
use crate::universe::model::next_cell;
use crate::universe::model::node_ok;
use crate::universe::model::pulsar_cells;
use crate::universe::model::quadrant;
use crate::universe::model::round_even;
use crate::universe::model::same_node;
use crate::universe::model::shape_level;
use crate::universe::model::splits;
use crate::universe::model::steps_to;
use crate::universe::model::torus_next;
use crate::universe::model::with_cells_set;
use crate::universe::model::wrap;
use crate::universe::model::lemma_count_true_bound;
use crate::universe::model::lemma_count_true_zero;
use crate::universe::model::lemma_flat_frame;
use crate::universe::model::lemma_flat_shape;
use crate::universe::model::lemma_node_ok_frame;
use crate::universe::model::lemma_same_content;
use crate::universe::model::lemma_split_area;
use std::collections::HashMap;
use vstd::arithmetic::power2::pow2;
use vstd::prelude::*;

mod intern;
pub mod model;
pub mod morton;
pub mod node;
pub mod rect;
pub mod space;

verus! {

broadcast use vstd::std_specs::hash::group_hash_axioms;

/// `new` is `old` cleared: every cell dead, and the root the canonical empty
/// node of the grid, the one already on record if there was one.
pub open spec fn cleared(old: &Universe, new: &Universe) -> bool {
    let key = dims_key(new.spec_width(), new.spec_height()) as u128;
    &&& new.regrown(old)
    &&& new.cells() == Seq::new(old.cells().len(), |i: int| false)
    &&& new.empties().contains_key(key)
    &&& new.empties()[key] == new.spec_root()
    &&& old.empties().contains_key(key) ==> new.spec_root() == old.empties()[key] && new.nodes()
        == old.nodes() && new.empties() == old.empties()
}

/// Node `e` is the wrapped block of node `i`: four copies of one node `x`
/// whose quadrants are those of `i` rolled by half its extent.
pub open spec fn wrapped_of(arena: Seq<Node>, i: int, e: int) -> bool {
    &&& 0 <= e < arena.len()
    &&& exists|x: int|
        0 <= x < arena.len() && #[trigger] children_are(
            arena,
            x,
            (quadrant(arena, i, 3), quadrant(arena, i, 2), quadrant(arena, i, 1), quadrant(arena, i, 0)),
        ) && children_are(arena, e, (x, x, x, x))
}

/// Appending nodes keeps a wrapped block the wrapped block of its node.
proof fn lemma_wrapped_frame(a: Seq<Node>, b: Seq<Node>, i: int, e: int)
    requires
        a.is_prefix_of(b),
        0 <= i < a.len(),
        wrapped_of(a, i, e),
    ensures
        wrapped_of(b, i, e),
{
    let x = choose|x: int|
        0 <= x < a.len() && #[trigger] children_are(
            a,
            x,
            (quadrant(a, i, 3), quadrant(a, i, 2), quadrant(a, i, 1), quadrant(a, i, 0)),
        ) && children_are(a, e, (x, x, x, x));
    assert(b[i] == a[i] && b[x] == a[x] && b[e] == a[e]);
    assert(children_are(b, x, (quadrant(b, i, 3), quadrant(b, i, 2), quadrant(b, i, 1), quadrant(b, i, 0))));
}

/// A toroidal Game of Life grid, stored as a hash-consed quadtree.
pub struct Universe {
    width: usize,
    height: usize,
    root: NodeId,
    arena: Vec<Node>,
    node_map: HashMap<usize, NodeId>,
    keys: Interner,
    tids: Ghost<Seq<usize>>,
    empty_node_map: HashMap<u128, NodeId>,
    next_node_map: HashMap<usize, NodeId>,
    morton_space: MortonSpace,
}

impl Universe {
    /// The nodes made so far, by handle.
    pub closed spec fn nodes(&self) -> Seq<Node> {
        self.arena@
    }

    pub closed spec fn spec_root(&self) -> NodeId {
        self.root
    }

    pub closed spec fn spec_width(&self) -> nat {
        self.width as nat
    }

    pub closed spec fn spec_height(&self) -> nat {
        self.height as nat
    }

    /// The memo table: each key's one-generation successor.
    pub closed spec fn memo(&self) -> Map<usize, NodeId> {
        self.next_node_map@
    }

    /// The canonical empty nodes, by `dims_key`.
    pub closed spec fn empties(&self) -> Map<u128, NodeId> {
        self.empty_node_map@
    }

    /// The table of Z-order indices.
    pub closed spec fn space_table(&self) -> MortonSpace {
        self.morton_space
    }

    pub open spec fn valid(&self, id: NodeId) -> bool {
        id.index < self.nodes().len()
    }

    pub open spec fn node_at(&self, id: NodeId) -> Node {
        self.nodes()[id.index as int]
    }

    /// The cells of node `id`, in Z-order.
    pub open spec fn cells_of(&self, id: NodeId) -> Seq<bool> {
        flat(self.nodes(), id.index as int)
    }

    /// The cells of the grid, in Z-order.
    pub open spec fn cells(&self) -> Seq<bool> {
        self.cells_of(self.spec_root())
    }

    spec fn registered(&self, i: int) -> bool {
        let t = self.tids@[i];
        &&& (t as int) < self.keys.ids().len()
        &&& self.keys.ids()[t as int] == content(self.arena@[i])
        &&& self.node_map@.contains_key(t)
        &&& self.node_map@[t].index == i
    }

    spec fn map_entry_ok(&self, t: usize) -> bool {
        let v = self.node_map@[t].index as int;
        &&& (t as int) < self.keys.ids().len()
        &&& 0 <= v < self.arena@.len()
        &&& content(self.arena@[v]) == self.keys.ids()[t as int]
    }

    spec fn empty_entry_ok(&self, k: u128) -> bool {
        let v = self.empty_node_map@[k].index as int;
        &&& 0 <= v < self.arena@.len()
        &&& k == dims_key(
            self.arena@[v].spec_rect().width as nat,
            self.arena@[v].spec_rect().height as nat,
        )
        &&& self.arena@[v].spec_population() == 0
        &&& self.arena@[v].spec_children() is Some ==> {
            let h = half(self.arena@[v].spec_rect());
            let hk = dims_key(h.width as nat, h.height as nat) as u128;
            let e = self.empty_node_map@[hk];
            &&& self.empty_node_map@.contains_key(hk)
            &&& self.arena@[v].spec_children() == Some(SubNode { nw: e, ne: e, sw: e, se: e })
        }
    }

    /// The invariant of the node store: every node is consistent, no two
    /// nodes have the same content, the lookup tables point at the nodes they
    /// describe, and every memo entry pairs a node with one of half its size.
    pub closed spec fn store_wf(&self) -> bool {
        &&& forall|i: int| 0 <= i < self.arena@.len() ==> #[trigger] node_ok(self.arena@, i)
        &&& forall|i: int, j: int|
            0 <= i < self.arena@.len() && 0 <= j < self.arena@.len() && #[trigger] content(
                self.arena@[i],
            ) == #[trigger] content(self.arena@[j]) ==> i == j
        &&& self.keys.wf()
        &&& self.tids@.len() == self.arena@.len()
        &&& forall|i: int| 0 <= i < self.arena@.len() ==> #[trigger] self.registered(i)
        &&& forall|t: usize| #[trigger] self.node_map@.contains_key(t) ==> self.map_entry_ok(t)
        &&& forall|k: u128| #[trigger] self.empty_node_map@.contains_key(k) ==> self.empty_entry_ok(k)
        &&& forall|k: usize| #[trigger]
            self.next_node_map@.contains_key(k) ==> memo_ok(
                self.arena@,
                k as int,
                self.next_node_map@[k].index as int,
            )
    }

    /// The invariant of the universe: a consistent store whose root covers
    /// the grid.
    pub closed spec fn wf(&self) -> bool {
        &&& self.store_wf()
        &&& self.root.index < self.arena@.len()
        &&& self.arena@[self.root.index as int].spec_rect() == Rectangle {
            width: self.width,
            height: self.height,
        }
        &&& self.morton_space.wf()
        &&& self.morton_space.spec_width() == self.width
        &&& self.morton_space.spec_height() == self.height
    }

    /// The content of `node` as integer symbols.
    fn content_symbols(node: &Node) -> (r: Vec<usize>)
        requires
            node.wf(),
        ensures
            r@ == content(*node),
    {
        match node.children() {
            Some(c) => {
                let mut r: Vec<usize> = Vec::new();
                r.push(1);
                r.push(c.nw.index);
                r.push(c.ne.index);
                r.push(c.sw.index);
                r.push(c.se.index);
                assert(r@ =~= content(*node));
                r
            },
            None => {
                let space = node.space();
                let rect = node.rect();
                let mut r: Vec<usize> = Vec::new();
                r.push(0);
                r.push(rect.width());
                r.push(rect.height());
                let n = space_len(space);
                let ghost head = r@;
                let mut i: usize = 0;
                while i < n
                    invariant
                        n == space@.len(),
                        i <= n,
                        head == seq![0usize, node.spec_rect().width, node.spec_rect().height],
                        r@ =~= head + bit_symbols(space@.subrange(0, i as int)),
                    decreases n - i,
                {
                    let b = space_get(space, i);
                    r.push(if b { 1 } else { 0 });
                    proof {
                        assert(bit_symbols(space@.subrange(0, i + 1)) =~= bit_symbols(
                            space@.subrange(0, i as int),
                        ).push(if b { 1usize } else { 0usize }));
                    }
                    i += 1;
                }
                assert(space@.subrange(0, n as int) =~= space@);
                r
            },
        }
    }

    /// The handle of a node with the content of `node`: the existing one if
    /// there is one, else `node` itself, appended to the arena.
#[verifier::spinoff_prover]
    fn canonicalize(&mut self, node: Node) -> (r: NodeId)
        requires
            old(self).store_wf(),
            node_ok(old(self).nodes().push(node), old(self).nodes().len() as int),
        ensures
            final(self).store_wf(),
            final(self).keeps(old(self)),
            final(self).memo() == old(self).memo(),
            final(self).empties() == old(self).empties(),
            final(self).valid(r),
            same_node(final(self).node_at(r), node),
            final(self).nodes() == old(self).nodes() || final(self).nodes() == old(self).nodes().push(
                node,
            ),
            forall|j: int|
                0 <= j < old(self).nodes().len() && #[trigger] content(old(self).nodes()[j]) == content(
                    node,
                ) ==> r.index == j && final(self).nodes() == old(self).nodes(),
            final(self).nodes() == old(self).nodes() ==> final(self).node_map@ == old(self).node_map@,
            final(self).nodes() != old(self).nodes() ==> exists|t: usize|
                !old(self).node_map@.contains_key(t) && final(self).node_map@ == old(
                    self,
                ).node_map@.insert(t, r),
    {
        let symbols = Self::content_symbols(&node);
        let ghost old_ids = self.keys.ids();
        let t = self.keys.intern(&symbols);
        proof {
            assert(old_ids.is_prefix_of(self.keys.ids()));
            assert forall|i: int| 0 <= i < self.arena@.len() implies #[trigger] self.registered(i) by {
                assert(old(self).registered(i));
                assert(old_ids[self.tids@[i] as int] == self.keys.ids()[self.tids@[i] as int]);
            }
            assert forall|t2: usize| #[trigger] self.node_map@.contains_key(t2) implies self.map_entry_ok(t2) by {
                assert(old(self).map_entry_ok(t2));
                assert(old_ids[t2 as int] == self.keys.ids()[t2 as int]);
            }
        }
        match self.node_map.get(&t) {
            Some(id) => {
                let id = *id;
                proof {
                    assert(self.map_entry_ok(t));
                    let ext = self.arena@.push(node);
                    assert(self.arena@.is_prefix_of(ext));
                    assert(node_ok(self.arena@, id.index as int));
                    lemma_node_ok_frame(self.arena@, ext, id.index as int);
                    assert(ext[id.index as int] == self.arena@[id.index as int]);
                    lemma_same_content(ext, id.index as int, self.arena@.len() as int);
                    assert(self.arena@.is_prefix_of(self.arena@));
                    assert forall|j: int|
                        0 <= j < self.arena@.len() && #[trigger] content(self.arena@[j]) == content(node) implies j
                        == id.index by {
                        assert(content(self.arena@[j]) == content(self.arena@[id.index as int]));
                    }
                }
                id
            },
            None => {
                let id = NodeId::new(self.arena.len());
                let ghost before = self.arena@;
                self.arena.push(node);
                self.node_map.insert(t, id);
                let ghost tids2 = self.tids@.push(t);
                self.tids = Ghost(tids2);
                proof {
                    let n = before.len() as int;
                    assert(before.is_prefix_of(self.arena@));
                    assert forall|i: int| 0 <= i < self.arena@.len() implies #[trigger] node_ok(
                        self.arena@,
                        i,
                    ) by {
                        if i < n {
                            assert(node_ok(before, i));
                            lemma_node_ok_frame(before, self.arena@, i);
                        }
                    }
                    assert forall|i: int, j: int|
                        0 <= i < self.arena@.len() && 0 <= j < self.arena@.len() && #[trigger] content(
                            self.arena@[i],
                        ) == #[trigger] content(self.arena@[j]) implies i == j by {
                        if i < n && j < n {
                            assert(before[i] == self.arena@[i] && before[j] == self.arena@[j]);
                        } else if i < n || j < n {
                            let o = if i < n { i } else { j };
                            assert(old(self).registered(o));
                            let to = self.tids@[o];
                            assert(self.keys.ids()[to as int] == content(before[o]));
                            lemma_ids_distinct(&self.keys, to as int, t as int);
                            assert(old(self).node_map@.contains_key(t));
                        }
                    }
                    assert forall|i: int| 0 <= i < self.arena@.len() implies #[trigger] self.registered(i) by {
                        if i < n {
                            assert(old(self).registered(i));
                            assert(self.tids@[i] != t) by {
                                if self.tids@[i] == t {
                                    assert(old(self).node_map@.contains_key(t));
                                }
                            }
                            assert(before[i] == self.arena@[i]);
                        }
                    }
                    assert forall|t2: usize| #[trigger] self.node_map@.contains_key(t2) implies self.map_entry_ok(t2) by {
                        if t2 != t {
                            assert(old(self).map_entry_ok(t2));
                            let v = self.node_map@[t2].index as int;
                            assert(before[v] == self.arena@[v]);
                        }
                    }
                    assert forall|k: u128| #[trigger] self.empty_node_map@.contains_key(k) implies self.empty_entry_ok(k) by {
                        assert(old(self).empty_entry_ok(k));
                        let v = self.empty_node_map@[k].index as int;
                        assert(before[v] == self.arena@[v]);
                    }
                    assert forall|k: usize| #[trigger] self.next_node_map@.contains_key(k) implies memo_ok(
                        self.arena@,
                        k as int,
                        self.next_node_map@[k].index as int,
                    ) by {
                        let v = self.next_node_map@[k].index as int;
                        assert(memo_ok(before, k as int, v));
                        assert(before[v] == self.arena@[v]);
                        assert(before[k as int] == self.arena@[k as int]);
                        lemma_steps_to_frame(before, self.arena@, k as int, v);
                    }
                    assert(self.arena@[id.index as int] == node);
                    assert forall|j: int|
                        0 <= j < before.len() && #[trigger] content(before[j]) == content(node) implies false by {
                        assert(old(self).registered(j));
                        lemma_ids_distinct(&self.keys, self.tids@[j] as int, t as int);
                        assert(old(self).node_map@.contains_key(t));
                    }
                    assert(self.arena@.len() != before.len());
                    assert(self.node_map@ == old(self).node_map@.insert(t, id));
                }
                id
            },
        }
    }

    /// A universe of `width` by `height` cells (each rounded up to even),
    /// all dead.
    pub fn new(width: usize, height: usize) -> (r: Self)
        requires
            width < usize::MAX,
            height < usize::MAX,
            round_even(width as nat) * round_even(height as nat) <= max_bits(),
        ensures
            r.wf(),
            r.spec_width() == round_even(width as nat),
            r.spec_height() == round_even(height as nat),
            r.grid_ok(),
            r.cells() == Seq::new(r.spec_width() * r.spec_height(), |i: int| false),
            r.memo() == Map::<usize, NodeId>::empty(),
            r.empties().contains_key(dims_key(r.spec_width(), r.spec_height()) as u128),
            r.empties()[dims_key(r.spec_width(), r.spec_height()) as u128] == r.spec_root(),
    {
        let w = if width % 2 != 0 {
            width + 1
        } else {
            width
        };
        let h = if height % 2 != 0 {
            height + 1
        } else {
            height
        };
        let mut universe = Universe {
            width: w,
            height: h,
            root: NodeId::new(0),
            arena: Vec::new(),
            node_map: HashMap::new(),
            keys: Interner::new(),
            tids: Ghost(Seq::empty()),
            empty_node_map: HashMap::new(),
            next_node_map: HashMap::new(),
            morton_space: MortonSpace::new(w, h),
        };
        proof {
            Self::lemma_empty_store(&universe);
        }
        let root = universe.node(w, h);
        let ghost before = universe;
        universe.root = root;
        proof {
            Self::lemma_store_frame(&before, &universe);
            universe.lemma_cells_len();
        }
        universe
    }

    /// The store invariant speaks of the store alone, not of the grid or the
    /// root.
    proof fn lemma_store_frame(a: &Universe, b: &Universe)
        requires
            a.store_wf(),
            b.arena == a.arena,
            b.node_map == a.node_map,
            b.keys == a.keys,
            b.tids == a.tids,
            b.empty_node_map == a.empty_node_map,
            b.next_node_map == a.next_node_map,
        ensures
            b.store_wf(),
    {
        assert forall|i: int| 0 <= i < b.arena@.len() implies #[trigger] b.registered(i) by {
            assert(a.registered(i));
        }
        assert forall|t: usize| #[trigger] b.node_map@.contains_key(t) implies b.map_entry_ok(t) by {
            assert(a.map_entry_ok(t));
        }
        assert forall|k: u128| #[trigger] b.empty_node_map@.contains_key(k) implies b.empty_entry_ok(k) by {
            assert(a.empty_entry_ok(k));
        }
    }

    proof fn lemma_empty_store(u: &Universe)
        requires
            u.arena@.len() == 0,
            u.tids@.len() == 0,
            u.keys.wf(),
            u.node_map@ == Map::<usize, NodeId>::empty(),
            u.empty_node_map@ == Map::<u128, NodeId>::empty(),
            u.next_node_map@ == Map::<usize, NodeId>::empty(),
        ensures
            u.store_wf(),
    {
    }

    proof fn lemma_shape_level_bound(w: nat, h: nat)
        ensures
            shape_level(w, h) <= w,
        decreases w,
    {
        if splits(w, h) {
            Self::lemma_shape_level_bound(w / 2, h / 2);
        }
    }

    proof fn lemma_dims_key(w: nat, h: nat)
        requires
            h <= usize::MAX,
        ensures
            dims_key(w, h) / 0x1_0000_0000_0000_0000 == w,
            dims_key(w, h) % 0x1_0000_0000_0000_0000 == h,
    {
        vstd::arithmetic::div_mod::lemma_fundamental_div_mod_converse(
            dims_key(w, h),
            0x1_0000_0000_0000_0000,
            w as int,
            h as int,
        );
    }

    /// The canonical all-dead node of `width` by `height` cells.
#[verifier::spinoff_prover]
    pub fn node(&mut self, width: usize, height: usize) -> (r: NodeId)
        requires
            old(self).store_wf(),
            width * height <= max_bits(),
        ensures
            final(self).store_wf(),
            final(self).keeps(old(self)),
            final(self).memo() == old(self).memo(),
            final(self).valid(r),
            final(self).node_at(r).spec_rect() == (Rectangle { width, height }),
            final(self).node_at(r).spec_population() == 0,
            final(self).cells_of(r) == Seq::new((width * height) as nat, |i: int| false),
            final(self).empties().contains_key(dims_key(width as nat, height as nat) as u128),
            final(self).empties()[dims_key(width as nat, height as nat) as u128] == r,
            old(self).empties().contains_key(dims_key(width as nat, height as nat) as u128) ==> r
                == old(self).empties()[dims_key(width as nat, height as nat) as u128]
                && final(self).nodes() == old(self).nodes() && final(self).empties() == old(
                self,
            ).empties(),
            final(self).node_at(r).spec_level() == shape_level(width as nat, height as nat),
            !splits(width as nat, height as nat) ==> final(self).node_at(r).spec_children() is None,
            splits(width as nat, height as nat) ==> ({
                let hk = dims_key((width / 2) as nat, (height / 2) as nat) as u128;
                let e = final(self).empties()[hk];
                &&& final(self).empties().contains_key(hk)
                &&& final(self).node_at(r).spec_children() == Some(SubNode { nw: e, ne: e, sw: e, se: e })
            }),
            forall|k: u128|
                #[trigger] final(self).empties().contains_key(k) && !old(self).empties().contains_key(k)
                    ==> (k as int) / 0x1_0000_0000_0000_0000 <= width,
        decreases width,
    {
        proof {
            Self::lemma_dims_key(width as nat, height as nat);
            Self::lemma_dims_key((width / 2) as nat, (height / 2) as nat);
        }
        let key: u128 = (width as u128) * 0x1_0000_0000_0000_0000u128 + (height as u128);
        assert(key as int == dims_key(width as nat, height as nat));
        let id = match self.empty_node_map.get(&key) {
            Some(id) => {
                let id = *id;
                proof {
                    assert(self.empty_entry_ok(key));
                    let rr = self.arena@[id.index as int].spec_rect();
                    Self::lemma_dims_key(rr.width as nat, rr.height as nat);
                    assert(self.arena@.is_prefix_of(self.arena@));
                    let arena = self.arena@;
                    assert forall|i: int| 0 <= i <= id.index implies #[trigger] node_ok(arena, i) by {
                    }
                    lemma_flat_shape(arena, id.index as int);
                    lemma_count_true_zero(flat(arena, id.index as int));
                    assert(node_ok(arena, id.index as int));
                }
                return id;
            },
            None => {
                if !(width > 4 && height > 4 && width % 2 == 0 && height % 2 == 0) {
                    proof {
                        assert(Seq::new((width * height) as nat, |i: int| false).len() <= max_bits());
                    }
                    let n = Node::new(width, height);
                    proof {
                        lemma_count_true_bound(n.spec_space().unwrap());
                    }
                    self.canonicalize(n)
                } else {
                    proof {
                        lemma_split_area(Rectangle { width, height });
                    }
                    let c = self.node(width / 2, height / 2);
                    self.node_with_children(width, height, c, c, c, c)
                }
            },
        };
        let ghost mid = *self;
        proof {
            assert forall|k: u128| #[trigger] mid.empty_node_map@.contains_key(k) implies k != key by {
                if !old(self).empty_node_map@.contains_key(k) {
                    assert((k as int) / 0x1_0000_0000_0000_0000 <= width / 2);
                }
            }
        }
        self.empty_node_map.insert(key, id);
        proof {
            let arena = self.arena@;
            assert forall|i: int| 0 <= i <= id.index implies #[trigger] node_ok(arena, i) by {
                assert(mid.store_wf());
            }
            lemma_flat_shape(arena, id.index as int);
            lemma_count_true_zero(flat(arena, id.index as int));
            assert(node_ok(arena, id.index as int));
            assert forall|k: u128| #[trigger] self.empty_node_map@.contains_key(k) implies self.empty_entry_ok(k) by {
                if k != key {
                    assert(mid.empty_entry_ok(k));
                    let v = mid.empty_node_map@[k].index as int;
                    if mid.arena@[v].spec_children() is Some {
                        let h = half(mid.arena@[v].spec_rect());
                        let hk = dims_key(h.width as nat, h.height as nat) as u128;
                        assert(mid.empty_node_map@.contains_key(hk));
                    }
                } else {
                    let hk = dims_key((width / 2) as nat, (height / 2) as nat) as u128;
                    if splits(width as nat, height as nat) {
                        assert(mid.empty_node_map@.contains_key(hk));
                        assert(hk != key);
                    }
                }
            }
            assert forall|t: usize| #[trigger] self.node_map@.contains_key(t) implies self.map_entry_ok(t) by {
                assert(mid.map_entry_ok(t));
            }
            assert forall|i: int| 0 <= i < self.arena@.len() implies #[trigger] self.registered(i) by {
                assert(mid.registered(i));
            }
            assert(old(self).empty_node_map@.submap_of(mid.empty_node_map@));
            assert(!old(self).empty_node_map@.contains_key(key));
            assert forall|k: u128| #[trigger] old(self).empty_node_map@.contains_key(k) implies self.empty_node_map@.contains_key(k)
                && self.empty_node_map@[k] == old(self).empty_node_map@[k] by {
                assert(mid.empty_node_map@.contains_key(k));
            }
            assert(old(self).empty_node_map@.submap_of(self.empty_node_map@));
        }
        id
    }

    /// The node whose quadrants are `nw`, `ne`, `sw` and `se`, each of half
    /// the extent `width` by `height`.
#[verifier::spinoff_prover]
    pub fn node_with_children(
        &mut self,
        width: usize,
        height: usize,
        nw: NodeId,
        ne: NodeId,
        sw: NodeId,
        se: NodeId,
    ) -> (r: NodeId)
        requires
            old(self).store_wf(),
            old(self).valid(nw),
            old(self).valid(ne),
            old(self).valid(sw),
            old(self).valid(se),
            splits(width as nat, height as nat),
            width * height <= max_bits(),
            old(self).node_at(nw).spec_rect() == half(Rectangle { width, height }),
            old(self).node_at(ne).spec_rect() == half(Rectangle { width, height }),
            old(self).node_at(sw).spec_rect() == half(Rectangle { width, height }),
            old(self).node_at(se).spec_rect() == half(Rectangle { width, height }),
        ensures
            final(self).store_wf(),
            final(self).keeps(old(self)),
            final(self).memo() == old(self).memo(),
            final(self).empties() == old(self).empties(),
            final(self).valid(r),
            final(self).node_at(r).spec_children() == Some(SubNode { nw, ne, sw, se }),
            final(self).node_at(r).spec_rect() == (Rectangle { width, height }),
            final(self).node_at(r).spec_level() == old(self).node_at(nw).spec_level() + 1,
            final(self).node_at(r).spec_population() == old(self).node_at(nw).spec_population()
                + old(self).node_at(ne).spec_population() + old(self).node_at(sw).spec_population()
                + old(self).node_at(se).spec_population(),
            final(self).cells_of(r) == old(self).cells_of(nw) + old(self).cells_of(ne)
                + old(self).cells_of(sw) + old(self).cells_of(se),
            forall|j: int|
                0 <= j < old(self).nodes().len() && #[trigger] old(self).nodes()[j].spec_children()
                    == Some(SubNode { nw, ne, sw, se }) ==> r.index == j && final(self).nodes() == old(
                    self,
                ).nodes(),
    {
        proof {
            lemma_split_area(Rectangle { width, height });
            assert(node_ok(self.arena@, nw.index as int));
            assert(node_ok(self.arena@, ne.index as int));
            assert(node_ok(self.arena@, sw.index as int));
            assert(node_ok(self.arena@, se.index as int));
            Self::lemma_shape_level_bound(width as nat / 2, height as nat / 2);
        }
        let children = Box::new(SubNode::new(nw, ne, sw, se));
        let pop = self.get_population_children(&children);
        let level = self.get_level_children(&children) + 1;
        let node = Node::with_children(width, height, children, pop, level);
        let ghost before = self.arena@;
        let r = self.canonicalize(node);
        proof {
            let arena = self.arena@;
            let i = r.index as int;
            assert(node_ok(arena, i));
            assert(arena[i].spec_children() == Some(SubNode { nw, ne, sw, se }));
            lemma_flat_frame(before, arena, nw.index as int);
            lemma_flat_frame(before, arena, ne.index as int);
            lemma_flat_frame(before, arena, sw.index as int);
            lemma_flat_frame(before, arena, se.index as int);
            assert forall|j: int|
                0 <= j < before.len() && #[trigger] before[j].spec_children() == Some(SubNode { nw, ne, sw, se })
                    implies r.index == j && self.arena@ == before by {
                assert(content(before[j]) == content(node));
            }
        }
        r
    }

    /// The node holding the cells of `space`, in Z-order, over a region of
    /// `width` by `height` cells.
#[verifier::spinoff_prover]
    #[verifier::rlimit(100)]
    pub fn node_with_bits(&mut self, width: usize, height: usize, space: &BitSpace) -> (r: NodeId)
        requires
            old(self).store_wf(),
            space@.len() == width * height,
            width * height <= max_bits(),
        ensures
            final(self).store_wf(),
            final(self).keeps(old(self)),
            final(self).memo() == old(self).memo(),
            final(self).empties() == old(self).empties(),
            final(self).valid(r),
            final(self).node_at(r).spec_rect() == (Rectangle { width, height }),
            final(self).node_at(r).spec_level() == shape_level(width as nat, height as nat),
            final(self).cells_of(r) == space@,
            forall|j: int|
                0 <= j < old(self).nodes().len() && #[trigger] old(self).nodes()[j].spec_rect() == (Rectangle {
                    width,
                    height,
                }) && flat(old(self).nodes(), j) == space@ ==> r.index == j && final(self).nodes() == old(
                    self,
                ).nodes(),
        decreases width,
    {
        let ghost a0 = self.arena@;
        let ghost rect = Rectangle { width, height };
        let ghost hit = exists|j: int| 0 <= j < a0.len() && a0[j].spec_rect() == rect && flat(a0, j) == space@;
        let ghost j0 = choose|j: int| 0 <= j < a0.len() && a0[j].spec_rect() == rect && flat(a0, j) == space@;
        proof {
            assert forall|j: int| 0 <= j < a0.len() && #[trigger] a0[j].spec_rect() == rect && flat(a0, j) == space@
                implies hit && j == j0 by {
                assert forall|k: int| 0 <= k < a0.len() implies #[trigger] node_ok(a0, k) by {}
                lemma_cells_determine(a0, j, j0);
            }
        }
        if !(width > 4 && height > 4 && width % 2 == 0 && height % 2 == 0) {
            let n = Node::with_bits(width, height, space);
            proof {
                lemma_count_true_bound(space@);
                if hit {
                    assert(node_ok(a0, j0));
                    assert(content(a0[j0]) =~= content(n));
                }
            }
            self.canonicalize(n)
        } else {
            let (w2, h2) = (width / 2, height / 2);
            proof {
                lemma_split_area(Rectangle { width, height });
            }
            let q = w2 * h2;
            let ghost hr = Rectangle { width: w2, height: h2 };
            let ghost cj = a0[j0].spec_children().unwrap();
            let s0 = space_copy_range(space, 0, q);
            let s1 = space_copy_range(space, q, 2 * q);
            let s2 = space_copy_range(space, 2 * q, 3 * q);
            let s3 = space_copy_range(space, 3 * q, 4 * q);
            proof {
                if hit {
                    assert(node_ok(a0, j0));
                    assert forall|k: int| 0 <= k < a0.len() implies #[trigger] node_ok(a0, k) by {}
                    let (p0, p1, p2, p3) = (cj.nw.index as int, cj.ne.index as int, cj.sw.index as int, cj.se.index as int);
                    assert forall|k: int| 0 <= k <= p0 implies #[trigger] node_ok(a0, k) by {}
                    assert forall|k: int| 0 <= k <= p1 implies #[trigger] node_ok(a0, k) by {}
                    assert forall|k: int| 0 <= k <= p2 implies #[trigger] node_ok(a0, k) by {}
                    assert forall|k: int| 0 <= k <= p3 implies #[trigger] node_ok(a0, k) by {}
                    lemma_flat_shape(a0, p0);
                    lemma_flat_shape(a0, p1);
                    lemma_flat_shape(a0, p2);
                    lemma_flat_shape(a0, p3);
                    assert(half(rect) == hr);
                    assert(flat(a0, j0) == flat(a0, p0) + flat(a0, p1) + flat(a0, p2) + flat(a0, p3));
                    assert(flat(a0, p0) =~= s0@);
                    assert(flat(a0, p1) =~= s1@);
                    assert(flat(a0, p2) =~= s2@);
                    assert(flat(a0, p3) =~= s3@);
                }
            }
            let a = self.node_with_bits(w2, h2, &s0);
            proof {
                if hit {
                    assert(a0[cj.nw.index as int].spec_rect() == hr);
                    assert(a == cj.nw && self.arena@ == a0);
                }
            }
            let ghost u1 = *self;
            let b = self.node_with_bits(w2, h2, &s1);
            proof {
                if hit {
                    assert(a0[cj.ne.index as int].spec_rect() == hr);
                    assert(b == cj.ne && self.arena@ == a0);
                }
            }
            let ghost u2 = *self;
            let c = self.node_with_bits(w2, h2, &s2);
            proof {
                if hit {
                    assert(a0[cj.sw.index as int].spec_rect() == hr);
                    assert(c == cj.sw && self.arena@ == a0);
                }
            }
            let ghost u3 = *self;
            let d = self.node_with_bits(w2, h2, &s3);
            proof {
                if hit {
                    assert(a0[cj.se.index as int].spec_rect() == hr);
                    assert(d == cj.se && self.arena@ == a0);
                    assert(a0[j0].spec_children() == Some(SubNode { nw: a, ne: b, sw: c, se: d }));
                }
                lemma_flat_frame(u1.arena@, self.arena@, a.index as int);
                lemma_flat_frame(u2.arena@, self.arena@, b.index as int);
                lemma_flat_frame(u3.arena@, self.arena@, c.index as int);
                assert(u1.arena@.is_prefix_of(self.arena@));
                assert(u2.arena@.is_prefix_of(self.arena@));
                assert(u3.arena@.is_prefix_of(self.arena@));
                assert(u1.arena@[a.index as int] == self.arena@[a.index as int]);
                assert(u2.arena@[b.index as int] == self.arena@[b.index as int]);
                assert(u3.arena@[c.index as int] == self.arena@[c.index as int]);
            }
            let r = self.node_with_children(width, height, a, b, c, d);
            proof {
                assert(space@ =~= s0@ + s1@ + s2@ + s3@);
                assert(old(self).arena@.is_prefix_of(self.arena@));
                assert(node_ok(self.arena@, r.index as int));
            }
            r
        }
    }

    /// The node behind `id`.
    pub fn get_node(&self, id: NodeId) -> (r: &Node)
        requires
            self.valid(id),
        ensures
            *r == self.node_at(id),
    {
        &self.arena[id.index()]
    }

    pub fn get_population(&self, id: NodeId) -> (r: usize)
        requires
            self.valid(id),
        ensures
            r == self.node_at(id).spec_population(),
    {
        self.get_node(id).population()
    }

    /// The total population of four nodes.
    pub fn get_population_children(&self, children: &SubNode) -> (r: usize)
        requires
            self.valid(children.nw),
            self.valid(children.ne),
            self.valid(children.sw),
            self.valid(children.se),
            self.node_at(children.nw).spec_population() + self.node_at(children.ne).spec_population()
                + self.node_at(children.sw).spec_population() + self.node_at(children.se).spec_population()
                <= usize::MAX,
        ensures
            r == self.node_at(children.nw).spec_population() + self.node_at(children.ne).spec_population()
                + self.node_at(children.sw).spec_population() + self.node_at(children.se).spec_population(),
    {
        let mut pop: usize = 0;
        pop += self.get_node(children.nw).population();
        pop += self.get_node(children.ne).population();
        pop += self.get_node(children.sw).population();
        pop += self.get_node(children.se).population();
        pop
    }

    pub fn get_level(&self, id: NodeId) -> (r: usize)
        requires
            self.valid(id),
        ensures
            r == self.node_at(id).spec_level(),
    {
        self.get_node(id).level()
    }

    /// The level of the quadrants: that of the first, which all share.
    pub fn get_level_children(&self, children: &SubNode) -> (r: usize)
        requires
            self.valid(children.nw),
        ensures
            r == self.node_at(children.nw).spec_level(),
    {
        self.get_node(children.nw).level()
    }

    /// Whether the cell `(row, col)` has a place in the grid's Z-order
    /// buffer and in its index table.
    pub open spec fn addressable(&self, row: nat, col: nat) -> bool {
        &&& row < coord_limit()
        &&& col < coord_limit()
        &&& self.space_table().in_table(row, col)
        &&& morton(row, col) < self.spec_width() * self.spec_height()
    }

    /// The universe is `old` with a new root over the same grid.
    pub open spec fn regrown(&self, old: &Universe) -> bool {
        &&& self.wf()
        &&& self.grid_ok()
        &&& self.spec_width() == old.spec_width()
        &&& self.spec_height() == old.spec_height()
        &&& self.space_table().spec_width() == old.space_table().spec_width()
        &&& self.space_table().spec_height() == old.space_table().spec_height()
        &&& old.nodes().is_prefix_of(self.nodes())
        &&& old.memo().submap_of(self.memo())
        &&& old.empties().submap_of(self.empties())
    }

    /// What a well-formed universe shows its callers: a consistent store,
    /// a root over the whole grid, one cell per square of it, and an index
    /// table of the grid's extent.
    pub open spec fn grid_ok(&self) -> bool {
        &&& self.store_wf()
        &&& self.valid(self.spec_root())
        &&& self.node_at(self.spec_root()).spec_rect() == (Rectangle {
            width: self.spec_width() as usize,
            height: self.spec_height() as usize,
        })
        &&& self.cells().len() == self.spec_width() * self.spec_height()
        &&& self.spec_width() * self.spec_height() <= max_bits()
        &&& self.space_table().wf()
        &&& self.space_table().spec_width() == self.spec_width()
        &&& self.space_table().spec_height() == self.spec_height()
    }

    /// A well-formed universe shows `grid_ok`.
    pub proof fn lemma_grid(&self)
        requires
            self.wf(),
        ensures
            self.grid_ok(),
    {
        self.lemma_cells_len();
    }

    /// The shape of a node of the store: its level follows from its extent,
    /// it has quadrants exactly when its extent splits, they are valid nodes
    /// of half its extent one level down, and its cells number its area, its
    /// population counting the live ones.
    pub proof fn lemma_node_shape(&self, id: NodeId)
        requires
            self.store_wf(),
            self.valid(id),
        ensures
            ({
                let n = self.node_at(id);
                let r = n.spec_rect();
                &&& n.wf()
                &&& n.spec_level() == shape_level(r.width as nat, r.height as nat)
                &&& area(r) <= max_bits()
                &&& self.cells_of(id).len() == area(r)
                &&& n.spec_population() == count_true(self.cells_of(id))
                &&& (n.spec_children() is Some <==> splits(r.width as nat, r.height as nat))
                &&& (n.spec_space() is Some <==> !splits(r.width as nat, r.height as nat))
                &&& n.spec_children() is Some ==> {
                    let c = n.spec_children().unwrap();
                    &&& self.valid(c.nw) && self.valid(c.ne) && self.valid(c.sw) && self.valid(c.se)
                    &&& self.node_at(c.nw).spec_rect() == half(r)
                    &&& self.node_at(c.ne).spec_rect() == half(r)
                    &&& self.node_at(c.sw).spec_rect() == half(r)
                    &&& self.node_at(c.se).spec_rect() == half(r)
                    &&& self.node_at(c.nw).spec_level() + 1 == n.spec_level()
                    &&& self.node_at(c.ne).spec_level() + 1 == n.spec_level()
                    &&& self.node_at(c.sw).spec_level() + 1 == n.spec_level()
                    &&& self.node_at(c.se).spec_level() + 1 == n.spec_level()
                }
            }),
    {
        let arena = self.arena@;
        assert forall|j: int| 0 <= j <= id.index implies #[trigger] node_ok(arena, j) by {}
        lemma_flat_shape(arena, id.index as int);
        assert(node_ok(arena, id.index as int));
        if let Some(c) = arena[id.index as int].spec_children() {
            assert(node_ok(arena, c.nw.index as int));
            assert(node_ok(arena, c.ne.index as int));
            assert(node_ok(arena, c.sw.index as int));
            assert(node_ok(arena, c.se.index as int));
        }
    }

    proof fn lemma_cells_len(&self)
        requires
            self.wf(),
        ensures
            self.cells().len() == self.spec_width() * self.spec_height(),
            self.spec_width() * self.spec_height() <= max_bits(),
    {
        let arena = self.arena@;
        assert forall|j: int| 0 <= j <= self.root.index implies #[trigger] node_ok(arena, j) by {}
        lemma_flat_shape(arena, self.root.index as int);
        assert(node_ok(arena, self.root.index as int));
        assert(area(arena[self.root.index as int].spec_rect()) == self.spec_width() * self.spec_height());
    }

    proof fn lemma_regrown(old: &Universe, mid: &Universe, new: &Universe)
        requires
            old.wf(),
            mid.store_wf(),
            mid.keeps(old),
            new.arena == mid.arena,
            new.node_map == mid.node_map,
            new.keys == mid.keys,
            new.tids == mid.tids,
            new.empty_node_map == mid.empty_node_map,
            new.next_node_map == mid.next_node_map,
            new.width == old.width,
            new.height == old.height,
            new.morton_space == mid.morton_space,
            new.root.index < new.arena@.len(),
            new.arena@[new.root.index as int].spec_rect() == (Rectangle {
                width: new.width,
                height: new.height,
            }),
        ensures
            new.regrown(old),
    {
        Self::lemma_store_frame(mid, new);
        new.lemma_cells_len();
    }

    pub fn width(&self) -> (r: usize)
        ensures
            r == self.spec_width(),
    {
        self.width
    }

    pub fn height(&self) -> (r: usize)
        ensures
            r == self.spec_height(),
    {
        self.height
    }

    /// The Z-order index of the cell `(row, col)`.
    pub fn get_morton(&self, row: usize, col: usize) -> (r: usize)
        requires
            self.wf(),
            self.addressable(row as nat, col as nat),
        ensures
            r as nat == morton(row as nat, col as nat),
    {
        self.morton_space.morton2(row, col)
    }

    /// Appends the cells of node `id` to `space_out`, leaves in the order
    /// north-west, north-east, south-west, south-east.
    pub fn build_bitspace_from_node(&self, id: NodeId, space_out: &mut BitSpace)
        requires
            self.store_wf(),
            self.valid(id),
            old(space_out)@.len() + self.cells_of(id).len() <= max_bits(),
        ensures
            final(space_out)@ == old(space_out)@ + self.cells_of(id),
        decreases id.index,
    {
        let node = self.get_node(id);
        proof {
            assert(node_ok(self.arena@, id.index as int));
        }
        match node.children() {
            Some(children) => {
                let c = **children;
                self.build_bitspace_from_node(c.nw, space_out);
                self.build_bitspace_from_node(c.ne, space_out);
                self.build_bitspace_from_node(c.sw, space_out);
                self.build_bitspace_from_node(c.se, space_out);
                assert(final(space_out)@ =~= old(space_out)@ + self.cells_of(id));
            },
            None => {
                crate::universe::space::space_append(space_out, node.space());
            },
        }
    }

    /// The cells of node `id`, in Z-order.
    pub fn build_bitspace_fast(&self, id: NodeId) -> (r: BitSpace)
        requires
            self.store_wf(),
            self.valid(id),
        ensures
            r@ == self.cells_of(id),
    {
        let mut out = crate::universe::space::space_empty();
        proof {
            let arena = self.arena@;
            assert forall|j: int| 0 <= j <= id.index implies #[trigger] node_ok(arena, j) by {}
            lemma_flat_shape(arena, id.index as int);
            assert(node_ok(arena, id.index as int));
        }
        self.build_bitspace_from_node(id, &mut out);
        assert(out@ =~= self.cells_of(id));
        out
    }

    /// The cells of the grid in Z-order, quadrant by quadrant: not row after
    /// row.
    pub fn get_cells(&self) -> (r: BitSpace)
        requires
            self.wf(),
        ensures
            r@ == self.cells(),
    {
        self.build_bitspace_fast(self.root)
    }

    /// Sets each of `cells` alive, by row and column.
#[verifier::spinoff_prover]
    pub fn set_cells(&mut self, cells: &[(usize, usize)])
        requires
            old(self).wf(),
            forall|k: int|
                0 <= k < cells@.len() ==> old(self).addressable(
                    #[trigger] cells@[k].0 as nat,
                    cells@[k].1 as nat,
                ),
        ensures
            final(self).regrown(old(self)),
            final(self).cells() == with_cells_set(old(self).cells(), cells@),
    {
        proof {
            self.lemma_cells_len();
        }
        let mut space = crate::universe::space::space_empty();
        self.build_bitspace_from_node(self.root, &mut space);
        assert(space@ =~= self.cells());
        let mut i: usize = 0;
        while i < cells.len()
            invariant
                self == old(self),
                self.wf(),
                self.spec_width() * self.spec_height() <= max_bits(),
                i <= cells@.len(),
                space@ == with_cells_set(old(self).cells(), cells@.subrange(0, i as int)),
                space@.len() == self.spec_width() * self.spec_height(),
                forall|k: int|
                    0 <= k < cells@.len() ==> self.addressable(
                        #[trigger] cells@[k].0 as nat,
                        cells@[k].1 as nat,
                    ),
            decreases cells@.len() - i,
        {
            let (row, col) = cells[i];
            let idx = self.get_morton(row, col);
            crate::universe::space::space_set(&mut space, idx, true);
            proof {
                let sub = cells@.subrange(0, i + 1);
                assert(sub.drop_last() =~= cells@.subrange(0, i as int));
                assert(sub.last() == cells@[i as int]);
            }
            i += 1;
        }
        assert(cells@.subrange(0, cells@.len() as int) =~= cells@);
        let ghost before = *self;
        let root = self.node_with_bits(self.width, self.height, &space);
        let ghost mid = *self;
        self.root = root;
        proof {
            Self::lemma_regrown(&before, &mid, self);
        }
    }

    /// The cell at `(row, col)`; an error outside the grid.
    pub fn get_cell(&self, row: usize, col: usize) -> (r: Result<bool, &'static str>)
        requires
            self.wf(),
        ensures
            r is Ok <==> (row < self.spec_width() && col < self.spec_height() && cell_lookup(
                self.nodes(),
                self.spec_root().index as int,
                row as nat,
                col as nat,
            ) is Some),
            r is Ok ==> r->Ok_0 == cell_lookup(
                self.nodes(),
                self.spec_root().index as int,
                row as nat,
                col as nat,
            )->0,
    {
        if row >= self.width || col >= self.height {
            Err("cell out of range for the grid")
        } else {
            self.get_cell_node(row, col, self.root)
        }
    }

    fn get_cell_node(&self, row: usize, col: usize, id: NodeId) -> (r: Result<bool, &'static str>)
        requires
            self.store_wf(),
            self.valid(id),
        ensures
            r is Ok <==> cell_lookup(self.nodes(), id.index as int, row as nat, col as nat) is Some,
            r is Ok ==> r->Ok_0 == cell_lookup(self.nodes(), id.index as int, row as nat, col as nat)->0,
        decreases id.index,
    {
        let node = self.get_node(id);
        proof {
            assert(node_ok(self.arena@, id.index as int));
        }
        match node.children() {
            Some(children) => {
                let c = **children;
                let pivot_w = node.rect().width() / 2;
                let pivot_h = node.rect().height() / 2;
                if row < pivot_w {
                    if col < pivot_h {
                        self.get_cell_node(row, col, c.nw)
                    } else {
                        self.get_cell_node(row, col % pivot_h, c.sw)
                    }
                } else if col < pivot_h {
                    self.get_cell_node(row % pivot_w, col, c.ne)
                } else {
                    self.get_cell_node(row % pivot_w, col % pivot_h, c.se)
                }
            },
            None => {
                let r = node.get_cell(row, col);
                r
            },
        }
    }

    /// Flips the cell at `(row, col)`: the cell that `get_cell` reads there is
    /// negated and written at the cell's Z-order index.
#[verifier::spinoff_prover]
    pub fn toggle_cell(&mut self, row: usize, col: usize)
        requires
            old(self).wf(),
            old(self).addressable(row as nat, col as nat),
            row < old(self).spec_width(),
            col < old(self).spec_height(),
            cell_lookup(old(self).nodes(), old(self).spec_root().index as int, row as nat, col as nat) is Some,
        ensures
            final(self).regrown(old(self)),
            final(self).cells() == old(self).cells().update(
                morton(row as nat, col as nat) as int,
                !cell_lookup(
                    old(self).nodes(),
                    old(self).spec_root().index as int,
                    row as nat,
                    col as nat,
                )->0,
            ),
    {
        proof {
            self.lemma_cells_len();
        }
        let mut space = crate::universe::space::space_empty();
        self.build_bitspace_from_node(self.root, &mut space);
        let val = match self.get_cell(row, col) {
            Ok(v) => v,
            Err(_) => false,
        };
        let idx = self.get_morton(row, col);
        crate::universe::space::space_set(&mut space, idx, !val);
        let ghost before = *self;
        let root = self.node_with_bits(self.width, self.height, &space);
        let ghost mid = *self;
        self.root = root;
        proof {
            Self::lemma_regrown(&before, &mid, self);
        }
    }

    /// Replaces the cells of the grid with `space`, in Z-order.
    pub fn fill_cells(&mut self, space: &BitSpace)
        requires
            old(self).wf(),
            space@.len() == old(self).cells().len(),
        ensures
            final(self).regrown(old(self)),
            final(self).cells() == space@,
    {
        proof {
            self.lemma_cells_len();
        }
        let ghost before = *self;
        let root = self.node_with_bits(self.width, self.height, space);
        let ghost mid = *self;
        self.root = root;
        proof {
            Self::lemma_regrown(&before, &mid, self);
        }
    }

    /// Fills the grid with cells drawn at random: one bit drawn per cell, in
    /// Z-order, through `fill_cells`.
    pub fn fill_cells_random(&mut self)
        requires
            old(self).wf(),
        ensures
            final(self).regrown(old(self)),
            final(self).cells().len() == old(self).cells().len(),
    {
        proof {
            self.lemma_cells_len();
        }
        let n = self.width * self.height;
        let mut space = crate::universe::space::space_empty();
        let mut i: usize = 0;
        while i < n
            invariant
                i <= n,
                n <= max_bits(),
                space@.len() == i,
            decreases n - i,
        {
            crate::universe::space::space_push(&mut space, random_bit());
            i += 1;
        }
        self.fill_cells(&space);
    }

    /// Fills the grid with cells drawn at random.
    pub fn randomize(&mut self)
        requires
            old(self).wf(),
        ensures
            final(self).regrown(old(self)),
            final(self).cells().len() == old(self).cells().len(),
    {
        self.fill_cells_random();
    }

    /// Kills every cell: the root becomes the canonical empty node of the grid.
    pub fn clear(&mut self)
        requires
            old(self).wf(),
        ensures
            cleared(old(self), final(self)),
    {
        proof {
            self.lemma_cells_len();
        }
        let ghost before = *self;
        let root = self.node(self.width, self.height);
        let ghost mid = *self;
        self.root = root;
        proof {
            Self::lemma_regrown(&before, &mid, self);
        }
    }

    /// The same as `clear`.
    pub fn reset(&mut self)
        requires
            old(self).wf(),
        ensures
            cleared(old(self), final(self)),
    {
        self.clear();
    }

    /// Sets the width of the grid and kills every cell.
    pub fn set_width(&mut self, width: usize)
        requires
            old(self).wf(),
            width * old(self).spec_height() <= max_bits(),
        ensures
            final(self).wf(),
            final(self).grid_ok(),
            final(self).spec_width() == width,
            final(self).spec_height() == old(self).spec_height(),
            final(self).cells() == Seq::new(width as nat * old(self).spec_height(), |i: int| false),
    {
        self.resize(width, self.height);
    }

    /// Sets the height of the grid and kills every cell.
    pub fn set_height(&mut self, height: usize)
        requires
            old(self).wf(),
            old(self).spec_width() * height <= max_bits(),
        ensures
            final(self).wf(),
            final(self).grid_ok(),
            final(self).spec_width() == old(self).spec_width(),
            final(self).spec_height() == height,
            final(self).cells() == Seq::new(old(self).spec_width() * height as nat, |i: int| false),
    {
        self.resize(self.width, height);
    }

    fn resize(&mut self, width: usize, height: usize)
        requires
            old(self).wf(),
            width * height <= max_bits(),
        ensures
            final(self).wf(),
            final(self).grid_ok(),
            final(self).spec_width() == width,
            final(self).spec_height() == height,
            final(self).cells() == Seq::new((width * height) as nat, |i: int| false),
    {
        let ghost before = *self;
        let root = self.node(width, height);
        let ghost mid = *self;
        self.width = width;
        self.height = height;
        self.morton_space = MortonSpace::new(width, height);
        self.root = root;
        proof {
            Self::lemma_store_frame(&mid, self);
            self.lemma_cells_len();
        }
    }

    /// Stamps a glider with its centre cell at `(row, col)`.
    pub fn set_flyer(&mut self, row: usize, col: usize)
        requires
            old(self).wf(),
            1 <= row < usize::MAX,
            1 <= col < usize::MAX,
            forall|k: int|
                0 <= k < 5 ==> old(self).addressable(
                    #[trigger] flyer_cells(row, col)[k].0 as nat,
                    flyer_cells(row, col)[k].1 as nat,
                ),
        ensures
            final(self).regrown(old(self)),
            final(self).cells() == with_cells_set(old(self).cells(), flyer_cells(row, col)),
    {
        let cells = vec![
            (row - 1, col - 1),
            (row, col),
            (row, col + 1),
            (row + 1, col - 1),
            (row + 1, col),
        ];
        assert(cells@ =~= flyer_cells(row, col));
        self.set_cells(cells.as_slice());
    }

    /// Stamps a pulsar centred on `(r, c)`.
    pub fn set_pulsar(&mut self, r: usize, c: usize)
        requires
            old(self).wf(),
            6 <= r <= usize::MAX - 6,
            6 <= c <= usize::MAX - 6,
            forall|k: int|
                0 <= k < 48 ==> old(self).addressable(
                    #[trigger] pulsar_cells(r, c)[k].0 as nat,
                    pulsar_cells(r, c)[k].1 as nat,
                ),
        ensures
            final(self).regrown(old(self)),
            final(self).cells() == with_cells_set(old(self).cells(), pulsar_cells(r, c)),
    {
        let cells = vec![
            (r - 4, c - 6),
            (r - 3, c - 6),
            (r - 2, c - 6),
            (r + 2, c - 6),
            (r + 3, c - 6),
            (r + 4, c - 6),
            (r - 6, c - 4),
            (r - 1, c - 4),
            (r + 1, c - 4),
            (r + 6, c - 4),
            (r - 6, c - 3),
            (r - 1, c - 3),
            (r + 1, c - 3),
            (r + 6, c - 3),
            (r - 6, c - 2),
            (r - 1, c - 2),
            (r + 1, c - 2),
            (r + 6, c - 2),
            (r - 4, c - 1),
            (r - 3, c - 1),
            (r - 2, c - 1),
            (r + 2, c - 1),
            (r + 3, c - 1),
            (r + 4, c - 1),
            (r - 4, c + 1),
            (r - 3, c + 1),
            (r - 2, c + 1),
            (r + 2, c + 1),
            (r + 3, c + 1),
            (r + 4, c + 1),
            (r - 6, c + 2),
            (r - 1, c + 2),
            (r + 1, c + 2),
            (r + 6, c + 2),
            (r - 6, c + 3),
            (r - 1, c + 3),
            (r + 1, c + 3),
            (r + 6, c + 3),
            (r - 6, c + 4),
            (r - 1, c + 4),
            (r + 1, c + 4),
            (r + 6, c + 4),
            (r - 4, c + 6),
            (r - 3, c + 6),
            (r - 2, c + 6),
            (r + 2, c + 6),
            (r + 3, c + 6),
            (r + 4, c + 6),
        ];
        assert(cells@ =~= pulsar_cells(r, c));
        self.set_cells(cells.as_slice());
    }

    /// The Z-order index of `(x, y)`, through the table where it has a slot.
    fn cell_index(&mut self, x: usize, y: usize) -> (r: usize)
        requires
            old(self).morton_space.wf(),
            (x as nat) < coord_limit(),
            (y as nat) < coord_limit(),
        ensures
            r as nat == morton(x as nat, y as nat),
            final(self).morton_space.wf(),
            final(self).morton_space.spec_width() == old(self).morton_space.spec_width(),
            final(self).morton_space.spec_height() == old(self).morton_space.spec_height(),
            final(self).arena == old(self).arena,
            final(self).node_map == old(self).node_map,
            final(self).keys == old(self).keys,
            final(self).tids == old(self).tids,
            final(self).empty_node_map == old(self).empty_node_map,
            final(self).next_node_map == old(self).next_node_map,
            final(self).root == old(self).root,
            final(self).width == old(self).width,
            final(self).height == old(self).height,
    {
        if self.morton_space.in_range(x, y) {
            self.morton_space.morton2_cache(x, y)
        } else {
            crate::universe::morton::morton2(x, y)
        }
    }

    /// The live neighbours of `(row, column)` in the Z-ordered buffer
    /// `space`.
    fn live_neighbor_count_fast(&mut self, row: usize, column: usize, space: &BitSpace) -> (r: u8)
        requires
            old(self).morton_space.wf(),
            1 <= row,
            1 <= column,
            row + 1 < coord_limit(),
            column + 1 < coord_limit(),
            forall|u: nat, v: nat|
                row - 1 <= u <= row + 1 && column - 1 <= v <= column + 1 ==> #[trigger] morton(u, v)
                    < space@.len(),
        ensures
            r as nat == neighbor_count(space@, row as int, column as int),
            final(self).morton_space.wf(),
            final(self).morton_space.spec_width() == old(self).morton_space.spec_width(),
            final(self).morton_space.spec_height() == old(self).morton_space.spec_height(),
            final(self).arena == old(self).arena,
            final(self).node_map == old(self).node_map,
            final(self).keys == old(self).keys,
            final(self).tids == old(self).tids,
            final(self).empty_node_map == old(self).empty_node_map,
            final(self).next_node_map == old(self).next_node_map,
            final(self).root == old(self).root,
            final(self).width == old(self).width,
            final(self).height == old(self).height,
    {
        let north = row - 1;
        let south = row + 1;
        let west = column - 1;
        let east = column + 1;
        proof {
            assert(morton(north as nat, west as nat) < space@.len());
            assert(morton(north as nat, column as nat) < space@.len());
            assert(morton(north as nat, east as nat) < space@.len());
            assert(morton(row as nat, west as nat) < space@.len());
            assert(morton(row as nat, east as nat) < space@.len());
            assert(morton(south as nat, west as nat) < space@.len());
            assert(morton(south as nat, column as nat) < space@.len());
            assert(morton(south as nat, east as nat) < space@.len());
        }
        let mut count: u8 = 0;
        let i = self.cell_index(north, west);
        count += space_get(space, i) as u8;
        let i = self.cell_index(north, column);
        count += space_get(space, i) as u8;
        let i = self.cell_index(north, east);
        count += space_get(space, i) as u8;
        let i = self.cell_index(row, west);
        count += space_get(space, i) as u8;
        let i = self.cell_index(row, east);
        count += space_get(space, i) as u8;
        let i = self.cell_index(south, west);
        count += space_get(space, i) as u8;
        let i = self.cell_index(south, column);
        count += space_get(space, i) as u8;
        let i = self.cell_index(south, east);
        count += space_get(space, i) as u8;
        count
    }

    /// The centre half of a 16 by 16 block, one generation on, computed
    /// cell by cell.
#[verifier::spinoff_prover]
    pub fn slow_sim(&mut self, id: NodeId) -> (r: NodeId)
        requires
            old(self).store_wf(),
            old(self).space_table().wf(),
            old(self).valid(id),
            old(self).node_at(id).spec_level() == 2,
            is_block(old(self).node_at(id).spec_rect(), 2),
        ensures
            final(self).store_wf(),
            final(self).keeps(old(self)),
            final(self).memo() == old(self).memo(),
            final(self).empties() == old(self).empties(),
            final(self).valid(r),
            final(self).node_at(r).spec_rect() == half(old(self).node_at(id).spec_rect()),
            final(self).cells_of(r) == center_step(old(self).cells_of(id), 16),
    {
        proof {
            vstd::arithmetic::power2::lemma2_to64();
            let arena = self.arena@;
            assert forall|j: int| 0 <= j <= id.index implies #[trigger] node_ok(arena, j) by {}
            lemma_flat_shape(arena, id.index as int);
        }
        let node = self.get_node(id);
        let w = node.rect().width();
        let h = node.rect().height();
        assert(w == 16 && h == 16);
        let w2 = w / 2;
        let h2 = h / 2;
        let w22 = w2 / 2;
        let h22 = h2 / 2;
        assert(w2 == 8 && h2 == 8 && w22 == 4 && h22 == 4);
        assert(64 <= max_bits());
        let space = self.build_bitspace_fast(id);
        let ghost u0 = *self;
        let ghost goal = center_step(space@, 16);
        let mut next = crate::universe::space::space_zeros(w2 * h2);
        let mut index: usize = 0;
        while index < w2 * h2
            invariant
                w2 == 8 && h2 == 8 && w22 == 4 && h22 == 4,
                space@.len() == 256,
                index <= 64,
                next@.len() == 64,
                goal == center_step(space@, 16),
                goal.len() == 64,
                forall|j: int| 0 <= j < index ==> next@[j] == #[trigger] goal[j],
                self.morton_space.wf(),
                self.morton_space.spec_width() == u0.morton_space.spec_width(),
                self.morton_space.spec_height() == u0.morton_space.spec_height(),
                self.arena == u0.arena,
                self.node_map == u0.node_map,
                self.keys == u0.keys,
                self.tids == u0.tids,
                self.empty_node_map == u0.empty_node_map,
                self.next_node_map == u0.next_node_map,
                self.root == u0.root,
                self.width == u0.width,
                self.height == u0.height,
            decreases 64 - index,
        {
            let (x, y) = crate::universe::morton::unravel_point(index);
            proof {
                crate::universe::morton::lemma_block_indices(0, 0, index as nat);
                crate::universe::morton::lemma_block_indices((x + w22) as nat, (y + h22) as nat, 0);
            }
            let s_index = crate::universe::morton::morton2(x + w22, y + h22);
            proof {
                assert forall|u: nat, v: nat|
                    x + w22 - 1 <= u <= x + w22 + 1 && y + h22 - 1 <= v <= y + h22 + 1 implies #[trigger] morton(
                    u,
                    v,
                ) < space@.len() by {
                    crate::universe::morton::lemma_block_indices(u, v, 0);
                }
            }
            let count = self.live_neighbor_count_fast(x + w22, y + h22, &space);
            let alive = count == 3 || (count == 2 && space_get(&space, s_index));
            let ghost before = next@;
            crate::universe::space::space_set(&mut next, index, alive);
            proof {
                assert(unmorton(index as nat).0 == x && unmorton(index as nat).1 == y);
                assert(16nat / 4 == 4);
                assert(goal[index as int] == life_rule(
                    space@[morton(x as nat + 4, y as nat + 4) as int],
                    neighbor_count(space@, (x + 4) as int, (y + 4) as int),
                ));
                assert(alive == life_rule(space@[s_index as int], count as nat));
                assert(next@[index as int] == goal[index as int]);
                assert forall|j: int| 0 <= j < index + 1 implies next@[j] == #[trigger] goal[j] by {
                    if j < index {
                        assert(next@[j] == before[j]);
                    }
                }
            }
            index += 1;
        }
        proof {
            assert(next@ =~= goal);
            Self::lemma_store_frame(&u0, self);
        }
        let r = self.node_with_bits(w2, h2, &next);
        r
    }

    proof fn lemma_block(&self, id: NodeId)
        requires
            self.store_wf(),
            self.valid(id),
            is_block(self.node_at(id).spec_rect(), self.node_at(id).spec_level()),
        ensures
            block_at(self.nodes(), id.index as int),
    {
        let arena = self.arena@;
        assert forall|j: int| 0 <= j <= id.index implies #[trigger] node_ok(arena, j) by {}
    }

    /// A block's quadrant of half its side is a block too.
    proof fn lemma_half_block(r: Rectangle, level: nat)
        requires
            is_block(r, level),
            level >= 1,
        ensures
            is_block(half(r), (level - 1) as nat),
            level >= 2 ==> is_block(half(half(r)), (level - 2) as nat),
    {
        vstd::arithmetic::power2::lemma_pow2_unfold(level);
        if level >= 2 {
            vstd::arithmetic::power2::lemma_pow2_unfold((level - 1) as nat);
        }
    }

    proof fn lemma_keeps_node(old: &Universe, new: &Universe, id: NodeId)
        requires
            new.keeps(old),
            old.valid(id),
        ensures
            new.valid(id),
            new.node_at(id) == old.node_at(id),
            new.cells_of(id) == old.cells_of(id),
    {
        assert(new.arena@.subrange(0, old.arena@.len() as int)[id.index as int] == new.arena@[id.index as int]);
        lemma_flat_frame(old.arena@, new.arena@, id.index as int);
    }

    proof fn lemma_keeps_trans(a: &Universe, b: &Universe, c: &Universe)
        requires
            b.keeps(a),
            c.keeps(b),
        ensures
            c.keeps(a),
    {
        assert(a.arena@ =~= c.arena@.subrange(0, a.arena@.len() as int)) by {
            assert forall|i: int| 0 <= i < a.arena@.len() implies a.arena@[i] == c.arena@[i] by {
                assert(b.arena@.subrange(0, a.arena@.len() as int)[i] == b.arena@[i]);
                assert(c.arena@.subrange(0, b.arena@.len() as int)[i] == c.arena@[i]);
            }
        }
        assert forall|k: usize| #[trigger] a.next_node_map@.contains_key(k) implies c.next_node_map@.contains_key(k)
            && c.next_node_map@[k] == a.next_node_map@[k] by {
            assert(b.next_node_map@.contains_key(k));
        }
        assert forall|k: u128| #[trigger] a.empty_node_map@.contains_key(k) implies c.empty_node_map@.contains_key(k)
            && c.empty_node_map@[k] == a.empty_node_map@[k] by {
            assert(b.empty_node_map@.contains_key(k));
        }
    }

    /// The quadrants of a node above the leaves.
    fn get_children(&self, id: NodeId) -> (r: SubNode)
        requires
            self.store_wf(),
            self.valid(id),
            self.node_at(id).spec_level() >= 1,
        ensures
            self.node_at(id).spec_children() == Some(r),
            self.valid(r.nw) && self.valid(r.ne) && self.valid(r.sw) && self.valid(r.se),
            self.node_at(r.nw).spec_rect() == half(self.node_at(id).spec_rect()),
            self.node_at(r.ne).spec_rect() == half(self.node_at(id).spec_rect()),
            self.node_at(r.sw).spec_rect() == half(self.node_at(id).spec_rect()),
            self.node_at(r.se).spec_rect() == half(self.node_at(id).spec_rect()),
            self.node_at(r.nw).spec_level() + 1 == self.node_at(id).spec_level(),
            self.node_at(r.ne).spec_level() + 1 == self.node_at(id).spec_level(),
            self.node_at(r.sw).spec_level() + 1 == self.node_at(id).spec_level(),
            self.node_at(r.se).spec_level() + 1 == self.node_at(id).spec_level(),
            splits(self.node_at(id).spec_rect().width as nat, self.node_at(id).spec_rect().height as nat),
    {
        proof {
            let arena = self.arena@;
            assert(node_ok(arena, id.index as int));
            let c = arena[id.index as int].spec_children().unwrap();
            assert(node_ok(arena, c.nw.index as int));
            assert(node_ok(arena, c.ne.index as int));
            assert(node_ok(arena, c.sw.index as int));
            assert(node_ok(arena, c.se.index as int));
        }
        let node = self.get_node(id);
        match node.children() {
            Some(c) => **c,
            None => {
                proof {
                    assert(false);
                }
                SubNode::new(id, id, id, id)
            },
        }
    }

    /// The node over the centre half of `id`.
#[verifier::spinoff_prover]
    fn centered_subnode(&mut self, id: NodeId) -> (r: NodeId)
        requires
            old(self).store_wf(),
            old(self).valid(id),
            old(self).node_at(id).spec_level() >= 2,
            is_block(old(self).node_at(id).spec_rect(), old(self).node_at(id).spec_level()),
        ensures
            final(self).store_wf(),
            final(self).keeps(old(self)),
            final(self).memo() == old(self).memo(),
            final(self).empties() == old(self).empties(),
            final(self).valid(r),
            final(self).node_at(r).spec_rect() == half(old(self).node_at(id).spec_rect()),
            final(self).node_at(r).spec_level() + 1 == old(self).node_at(id).spec_level(),
            ({
                let t = old(self).node_at(id).spec_rect().width as int;
                forall|x: int, y: int|
                    0 <= x < t / 2 && 0 <= y < t / 2 ==> #[trigger] cell(final(self).nodes(), r.index as int, x, y)
                        == cell(old(self).nodes(), id.index as int, x + t / 4, y + t / 4)
            }),
            children_are(
                final(self).nodes(),
                r.index as int,
                (
                    grandchild(old(self).nodes(), id.index as int, 0, 3),
                    grandchild(old(self).nodes(), id.index as int, 1, 2),
                    grandchild(old(self).nodes(), id.index as int, 2, 1),
                    grandchild(old(self).nodes(), id.index as int, 3, 0),
                ),
            ),
    {
        let ghost a0 = self.arena@;
        let node = self.get_node(id);
        let w = node.rect().width() / 2;
        let h = node.rect().height() / 2;
        let ch = self.get_children(id);
        let nw = self.get_children(ch.nw).se;
        let ne = self.get_children(ch.ne).sw;
        let sw = self.get_children(ch.sw).ne;
        let se = self.get_children(ch.se).nw;
        proof {
            assert(node_ok(self.arena@, ch.nw.index as int));
            lemma_split_area(half(self.node_at(id).spec_rect()));
            self.lemma_block(id);
            Self::lemma_half_block(self.node_at(id).spec_rect(), self.node_at(id).spec_level());
        }
        let r = self.node_with_children(w, h, nw, ne, sw, se);
        proof {
            self.lemma_block(r);
            lemma_centre_cells(a0, self.arena@, id.index as int, r.index as int);
        }
        r
    }

    /// The node over the middle of the west node `w` and the east node `e`,
    /// of the extent of either's quadrants.
#[verifier::spinoff_prover]
    fn centered_horizontal(&mut self, w: NodeId, e: NodeId) -> (r: NodeId)
        requires
            old(self).store_wf(),
            old(self).valid(w),
            old(self).valid(e),
            old(self).node_at(w).spec_level() >= 2,
            old(self).node_at(e).spec_rect() == old(self).node_at(w).spec_rect(),
            is_block(old(self).node_at(w).spec_rect(), old(self).node_at(w).spec_level()),
        ensures
            final(self).store_wf(),
            final(self).keeps(old(self)),
            final(self).memo() == old(self).memo(),
            final(self).empties() == old(self).empties(),
            final(self).valid(r),
            final(self).node_at(r).spec_rect() == half(old(self).node_at(w).spec_rect()),
            final(self).node_at(r).spec_level() + 1 == old(self).node_at(w).spec_level(),
            ({
                let t = old(self).node_at(w).spec_rect().width as int;
                forall|x: int, y: int|
                    0 <= x < t / 2 && 0 <= y < t / 2 ==> #[trigger] cell(final(self).nodes(), r.index as int, x, y)
                        == (if x + 3 * t / 4 < t {
                        cell(old(self).nodes(), w.index as int, x + 3 * t / 4, y + t / 4)
                    } else {
                        cell(old(self).nodes(), e.index as int, x + 3 * t / 4 - t, y + t / 4)
                    })
            }),
    {
        let ghost a0 = self.arena@;
        let w_node = self.get_node(w);
        let (wd, ht) = (w_node.rect().width() / 2, w_node.rect().height() / 2);
        proof {
            assert(node_ok(self.arena@, w.index as int));
            assert(node_ok(self.arena@, e.index as int));
        }
        let w_ch = self.get_children(w);
        let e_ch = self.get_children(e);
        let nw = self.get_children(w_ch.ne).se;
        let ne = self.get_children(e_ch.nw).sw;
        let sw = self.get_children(w_ch.se).ne;
        let se = self.get_children(e_ch.sw).nw;
        proof {
            assert(node_ok(self.arena@, w_ch.ne.index as int));
            lemma_split_area(half(self.node_at(w).spec_rect()));
            self.lemma_block(w);
            self.lemma_block(e);
            Self::lemma_half_block(self.node_at(w).spec_rect(), self.node_at(w).spec_level());
        }
        let r = self.node_with_children(wd, ht, nw, ne, sw, se);
        proof {
            self.lemma_block(r);
            lemma_horizontal_cells(a0, self.arena@, w.index as int, e.index as int, r.index as int);
        }
        r
    }

    /// The node over the middle of the north node `n` and the south node `s`,
    /// of the extent of either's quadrants.
#[verifier::spinoff_prover]
    fn centered_vertical(&mut self, n: NodeId, s: NodeId) -> (r: NodeId)
        requires
            old(self).store_wf(),
            old(self).valid(n),
            old(self).valid(s),
            old(self).node_at(n).spec_level() >= 2,
            old(self).node_at(s).spec_rect() == old(self).node_at(n).spec_rect(),
            is_block(old(self).node_at(n).spec_rect(), old(self).node_at(n).spec_level()),
        ensures
            final(self).store_wf(),
            final(self).keeps(old(self)),
            final(self).memo() == old(self).memo(),
            final(self).empties() == old(self).empties(),
            final(self).valid(r),
            final(self).node_at(r).spec_rect() == half(old(self).node_at(n).spec_rect()),
            final(self).node_at(r).spec_level() + 1 == old(self).node_at(n).spec_level(),
            ({
                let t = old(self).node_at(n).spec_rect().width as int;
                forall|x: int, y: int|
                    0 <= x < t / 2 && 0 <= y < t / 2 ==> #[trigger] cell(final(self).nodes(), r.index as int, x, y)
                        == (if y + 3 * t / 4 < t {
                        cell(old(self).nodes(), n.index as int, x + t / 4, y + 3 * t / 4)
                    } else {
                        cell(old(self).nodes(), s.index as int, x + t / 4, y + 3 * t / 4 - t)
                    })
            }),
    {
        let ghost a0 = self.arena@;
        let n_node = self.get_node(n);
        let (wd, ht) = (n_node.rect().width() / 2, n_node.rect().height() / 2);
        proof {
            assert(node_ok(self.arena@, n.index as int));
            assert(node_ok(self.arena@, s.index as int));
        }
        let n_ch = self.get_children(n);
        let s_ch = self.get_children(s);
        let nw = self.get_children(n_ch.sw).se;
        let ne = self.get_children(n_ch.se).sw;
        let sw = self.get_children(s_ch.nw).ne;
        let se = self.get_children(s_ch.ne).nw;
        proof {
            assert(node_ok(self.arena@, n_ch.sw.index as int));
            lemma_split_area(half(self.node_at(n).spec_rect()));
            self.lemma_block(n);
            self.lemma_block(s);
            Self::lemma_half_block(self.node_at(n).spec_rect(), self.node_at(n).spec_level());
        }
        let r = self.node_with_children(wd, ht, nw, ne, sw, se);
        proof {
            self.lemma_block(r);
            lemma_vertical_cells(a0, self.arena@, n.index as int, s.index as int, r.index as int);
        }
        r
    }

    /// The node over the centre quarter of `id`.
#[verifier::spinoff_prover]
    fn centered_sub_subnode(&mut self, id: NodeId) -> (r: NodeId)
        requires
            old(self).store_wf(),
            old(self).valid(id),
            old(self).node_at(id).spec_level() >= 3,
            is_block(old(self).node_at(id).spec_rect(), old(self).node_at(id).spec_level()),
        ensures
            final(self).store_wf(),
            final(self).keeps(old(self)),
            final(self).memo() == old(self).memo(),
            final(self).empties() == old(self).empties(),
            final(self).valid(r),
            final(self).node_at(r).spec_rect() == half(half(old(self).node_at(id).spec_rect())),
            final(self).node_at(r).spec_level() + 2 == old(self).node_at(id).spec_level(),
            ({
                let t = old(self).node_at(id).spec_rect().width as int;
                forall|x: int, y: int|
                    0 <= x < t / 4 && 0 <= y < t / 4 ==> #[trigger] cell(final(self).nodes(), r.index as int, x, y)
                        == cell(old(self).nodes(), id.index as int, x + 3 * t / 8, y + 3 * t / 8)
            }),
            children_are(
                final(self).nodes(),
                r.index as int,
                (
                    quadrant(old(self).nodes(), grandchild(old(self).nodes(), id.index as int, 0, 3), 3),
                    quadrant(old(self).nodes(), grandchild(old(self).nodes(), id.index as int, 1, 2), 2),
                    quadrant(old(self).nodes(), grandchild(old(self).nodes(), id.index as int, 2, 1), 1),
                    quadrant(old(self).nodes(), grandchild(old(self).nodes(), id.index as int, 3, 0), 0),
                ),
            ),
    {
        let ghost a0 = self.arena@;
        let node = self.get_node(id);
        let w = node.rect().width() / 2 / 2;
        let h = node.rect().height() / 2 / 2;
        let ch = self.get_children(id);
        let nw_c = self.get_children(ch.nw).se;
        let ne_c = self.get_children(ch.ne).sw;
        let sw_c = self.get_children(ch.sw).ne;
        let se_c = self.get_children(ch.se).nw;
        let nw = self.get_children(nw_c).se;
        let ne = self.get_children(ne_c).sw;
        let sw = self.get_children(sw_c).ne;
        let se = self.get_children(se_c).nw;
        proof {
            assert(node_ok(self.arena@, nw_c.index as int));
            lemma_split_area(half(half(self.node_at(id).spec_rect())));
            self.lemma_block(id);
            Self::lemma_half_block(self.node_at(id).spec_rect(), self.node_at(id).spec_level());
            Self::lemma_half_block(half(self.node_at(id).spec_rect()), (self.node_at(id).spec_level() - 1) as nat);
        }
        let r = self.node_with_children(w, h, nw, ne, sw, se);
        proof {
            self.lemma_block(r);
            lemma_centre_quarter_cells(a0, self.arena@, id.index as int, r.index as int);
        }
        r
    }

    /// The sub-blocks a quarter of the extent of `id` centred on the centres
    /// of its quadrants.
#[verifier::spinoff_prover]
    fn corner_blocks(&mut self, id: NodeId) -> (r: (NodeId, NodeId, NodeId, NodeId))
        requires
            old(self).store_wf(),
            old(self).valid(id),
            old(self).node_at(id).spec_level() >= 3,
            is_block(old(self).node_at(id).spec_rect(), old(self).node_at(id).spec_level()),
        ensures
            final(self).store_wf(),
            final(self).keeps(old(self)),
            final(self).memo() == old(self).memo(),
            final(self).empties() == old(self).empties(),
            final(self).valid(r.0) && final(self).valid(r.1) && final(self).valid(r.2) && final(self).valid(r.3),
            final(self).node_at(r.0).spec_rect() == half(half(old(self).node_at(id).spec_rect())),
            final(self).node_at(r.0).spec_level() + 2 == old(self).node_at(id).spec_level(),
            final(self).node_at(r.1).spec_rect() == half(half(old(self).node_at(id).spec_rect())),
            final(self).node_at(r.1).spec_level() + 2 == old(self).node_at(id).spec_level(),
            final(self).node_at(r.2).spec_rect() == half(half(old(self).node_at(id).spec_rect())),
            final(self).node_at(r.2).spec_level() + 2 == old(self).node_at(id).spec_level(),
            final(self).node_at(r.3).spec_rect() == half(half(old(self).node_at(id).spec_rect())),
            final(self).node_at(r.3).spec_level() + 2 == old(self).node_at(id).spec_level(),
            forall|x: int, y: int|
                0 <= x < old(self).node_at(id).spec_rect().width / 4 && 0 <= y < old(self).node_at(id).spec_rect().width / 4
                    ==> #[trigger] cell(final(self).nodes(), r.0.index as int, x, y) == cell(
                    old(self).nodes(),
                    id.index as int,
                    x + 1 * (old(self).node_at(id).spec_rect().width as int) / 8,
                    y + 1 * (old(self).node_at(id).spec_rect().width as int) / 8,
                ),
            forall|x: int, y: int|
                0 <= x < old(self).node_at(id).spec_rect().width / 4 && 0 <= y < old(self).node_at(id).spec_rect().width / 4
                    ==> #[trigger] cell(final(self).nodes(), r.1.index as int, x, y) == cell(
                    old(self).nodes(),
                    id.index as int,
                    x + 5 * (old(self).node_at(id).spec_rect().width as int) / 8,
                    y + 1 * (old(self).node_at(id).spec_rect().width as int) / 8,
                ),
            forall|x: int, y: int|
                0 <= x < old(self).node_at(id).spec_rect().width / 4 && 0 <= y < old(self).node_at(id).spec_rect().width / 4
                    ==> #[trigger] cell(final(self).nodes(), r.2.index as int, x, y) == cell(
                    old(self).nodes(),
                    id.index as int,
                    x + 1 * (old(self).node_at(id).spec_rect().width as int) / 8,
                    y + 5 * (old(self).node_at(id).spec_rect().width as int) / 8,
                ),
            forall|x: int, y: int|
                0 <= x < old(self).node_at(id).spec_rect().width / 4 && 0 <= y < old(self).node_at(id).spec_rect().width / 4
                    ==> #[trigger] cell(final(self).nodes(), r.3.index as int, x, y) == cell(
                    old(self).nodes(),
                    id.index as int,
                    x + 5 * (old(self).node_at(id).spec_rect().width as int) / 8,
                    y + 5 * (old(self).node_at(id).spec_rect().width as int) / 8,
                ),
    {
        let ghost a0 = self.arena@;
        let ch = self.get_children(id);
        proof {
            self.lemma_block(id);
            lemma_block_side(a0, id.index as int);
            Self::lemma_half_block(self.node_at(id).spec_rect(), self.node_at(id).spec_level());
            lemma_quadrant_cells(a0, id.index as int, 0);
            lemma_quadrant_cells(a0, id.index as int, 1);
            lemma_quadrant_cells(a0, id.index as int, 2);
            lemma_quadrant_cells(a0, id.index as int, 3);
        }
        let n00 = self.centered_subnode(ch.nw);
        let ghost a1 = self.arena@;
        proof { lemma_cells_frame(a0, a1, ch.ne.index as int); }
        let n02 = self.centered_subnode(ch.ne);
        let ghost a2 = self.arena@;
        proof { lemma_cells_frame(a0, a2, ch.sw.index as int); }
        let n20 = self.centered_subnode(ch.sw);
        let ghost a3 = self.arena@;
        proof { lemma_cells_frame(a0, a3, ch.se.index as int); }
        let n22 = self.centered_subnode(ch.se);
        proof {
            lemma_cells_frame(a1, self.arena@, n00.index as int);
            lemma_cells_frame(a2, self.arena@, n02.index as int);
            lemma_cells_frame(a3, self.arena@, n20.index as int);
        }
        (n00, n02, n20, n22)
    }

    /// The sub-blocks a quarter of the extent of `id` centred on the midpoints
    /// of the edges between its quadrants: north, west, east, south.
    #[verifier::spinoff_prover]
    #[verifier::rlimit(100)]
    fn edge_blocks(&mut self, id: NodeId) -> (r: (NodeId, NodeId, NodeId, NodeId))
        requires
            old(self).store_wf(),
            old(self).valid(id),
            old(self).node_at(id).spec_level() >= 3,
            is_block(old(self).node_at(id).spec_rect(), old(self).node_at(id).spec_level()),
        ensures
            final(self).store_wf(),
            final(self).keeps(old(self)),
            final(self).memo() == old(self).memo(),
            final(self).empties() == old(self).empties(),
            final(self).valid(r.0) && final(self).valid(r.1) && final(self).valid(r.2) && final(self).valid(r.3),
            final(self).node_at(r.0).spec_rect() == half(half(old(self).node_at(id).spec_rect())),
            final(self).node_at(r.0).spec_level() + 2 == old(self).node_at(id).spec_level(),
            final(self).node_at(r.1).spec_rect() == half(half(old(self).node_at(id).spec_rect())),
            final(self).node_at(r.1).spec_level() + 2 == old(self).node_at(id).spec_level(),
            final(self).node_at(r.2).spec_rect() == half(half(old(self).node_at(id).spec_rect())),
            final(self).node_at(r.2).spec_level() + 2 == old(self).node_at(id).spec_level(),
            final(self).node_at(r.3).spec_rect() == half(half(old(self).node_at(id).spec_rect())),
            final(self).node_at(r.3).spec_level() + 2 == old(self).node_at(id).spec_level(),
            forall|x: int, y: int|
                0 <= x < old(self).node_at(id).spec_rect().width / 4 && 0 <= y < old(self).node_at(id).spec_rect().width / 4
                    ==> #[trigger] cell(final(self).nodes(), r.0.index as int, x, y) == cell(
                    old(self).nodes(),
                    id.index as int,
                    x + 3 * (old(self).node_at(id).spec_rect().width as int) / 8,
                    y + 1 * (old(self).node_at(id).spec_rect().width as int) / 8,
                ),
            forall|x: int, y: int|
                0 <= x < old(self).node_at(id).spec_rect().width / 4 && 0 <= y < old(self).node_at(id).spec_rect().width / 4
                    ==> #[trigger] cell(final(self).nodes(), r.1.index as int, x, y) == cell(
                    old(self).nodes(),
                    id.index as int,
                    x + 1 * (old(self).node_at(id).spec_rect().width as int) / 8,
                    y + 3 * (old(self).node_at(id).spec_rect().width as int) / 8,
                ),
            forall|x: int, y: int|
                0 <= x < old(self).node_at(id).spec_rect().width / 4 && 0 <= y < old(self).node_at(id).spec_rect().width / 4
                    ==> #[trigger] cell(final(self).nodes(), r.2.index as int, x, y) == cell(
                    old(self).nodes(),
                    id.index as int,
                    x + 5 * (old(self).node_at(id).spec_rect().width as int) / 8,
                    y + 3 * (old(self).node_at(id).spec_rect().width as int) / 8,
                ),
            forall|x: int, y: int|
                0 <= x < old(self).node_at(id).spec_rect().width / 4 && 0 <= y < old(self).node_at(id).spec_rect().width / 4
                    ==> #[trigger] cell(final(self).nodes(), r.3.index as int, x, y) == cell(
                    old(self).nodes(),
                    id.index as int,
                    x + 3 * (old(self).node_at(id).spec_rect().width as int) / 8,
                    y + 5 * (old(self).node_at(id).spec_rect().width as int) / 8,
                ),
    {
        let ghost a0 = self.arena@;
        let ch = self.get_children(id);
        proof {
            self.lemma_block(id);
            lemma_block_side(a0, id.index as int);
            Self::lemma_half_block(self.node_at(id).spec_rect(), self.node_at(id).spec_level());
            lemma_quadrant_cells(a0, id.index as int, 0);
            lemma_quadrant_cells(a0, id.index as int, 1);
            lemma_quadrant_cells(a0, id.index as int, 2);
            lemma_quadrant_cells(a0, id.index as int, 3);
        }
        let n01 = self.centered_horizontal(ch.nw, ch.ne);
        let ghost a1 = self.arena@;
        proof {
            lemma_cells_frame(a0, a1, ch.nw.index as int);
            lemma_cells_frame(a0, a1, ch.sw.index as int);
            lemma_cells_frame(a0, a1, ch.ne.index as int);
            lemma_cells_frame(a0, a1, ch.se.index as int);
        }
        let n10 = self.centered_vertical(ch.nw, ch.sw);
        let ghost a2 = self.arena@;
        proof {
            lemma_cells_frame(a0, a2, ch.ne.index as int);
            lemma_cells_frame(a0, a2, ch.se.index as int);
            lemma_cells_frame(a0, a2, ch.sw.index as int);
        }
        let n12 = self.centered_vertical(ch.ne, ch.se);
        let ghost a3 = self.arena@;
        proof {
            lemma_cells_frame(a0, a3, ch.sw.index as int);
            lemma_cells_frame(a0, a3, ch.se.index as int);
        }
        let n21 = self.centered_horizontal(ch.sw, ch.se);
        proof {
            lemma_cells_frame(a1, self.arena@, n01.index as int);
            lemma_cells_frame(a2, self.arena@, n10.index as int);
            lemma_cells_frame(a3, self.arena@, n12.index as int);
        }
        (n01, n10, n12, n21)
    }

    /// The four overlapping blocks, each half the extent of `id`, whose
    /// centres tile the centre of `id`: built from nine sub-blocks a quarter
    /// of its extent.
    #[verifier::spinoff_prover]
    #[verifier::rlimit(100)]
    fn overlapping_blocks(&mut self, id: NodeId) -> (r: (NodeId, NodeId, NodeId, NodeId))
        requires
            old(self).store_wf(),
            old(self).valid(id),
            old(self).node_at(id).spec_level() >= 3,
            is_block(old(self).node_at(id).spec_rect(), old(self).node_at(id).spec_level()),
        ensures
            final(self).store_wf(),
            final(self).keeps(old(self)),
            final(self).memo() == old(self).memo(),
            final(self).empties() == old(self).empties(),
            final(self).valid(r.0) && final(self).valid(r.1) && final(self).valid(r.2) && final(self).valid(r.3),
            final(self).node_at(r.0).spec_rect() == half(old(self).node_at(id).spec_rect()),
            final(self).node_at(r.0).spec_level() + 1 == old(self).node_at(id).spec_level(),
            final(self).node_at(r.1).spec_rect() == half(old(self).node_at(id).spec_rect()),
            final(self).node_at(r.1).spec_level() + 1 == old(self).node_at(id).spec_level(),
            final(self).node_at(r.2).spec_rect() == half(old(self).node_at(id).spec_rect()),
            final(self).node_at(r.2).spec_level() + 1 == old(self).node_at(id).spec_level(),
            final(self).node_at(r.3).spec_rect() == half(old(self).node_at(id).spec_rect()),
            final(self).node_at(r.3).spec_level() + 1 == old(self).node_at(id).spec_level(),
            forall|x: int, y: int|
                0 <= x < old(self).node_at(id).spec_rect().width / 2 && 0 <= y < old(self).node_at(id).spec_rect().width / 2
                    ==> #[trigger] cell(final(self).nodes(), r.0.index as int, x, y) == cell(
                    old(self).nodes(),
                    id.index as int,
                    x + 1 * (old(self).node_at(id).spec_rect().width as int) / 8,
                    y + 1 * (old(self).node_at(id).spec_rect().width as int) / 8,
                ),
            forall|x: int, y: int|
                0 <= x < old(self).node_at(id).spec_rect().width / 2 && 0 <= y < old(self).node_at(id).spec_rect().width / 2
                    ==> #[trigger] cell(final(self).nodes(), r.1.index as int, x, y) == cell(
                    old(self).nodes(),
                    id.index as int,
                    x + 3 * (old(self).node_at(id).spec_rect().width as int) / 8,
                    y + 1 * (old(self).node_at(id).spec_rect().width as int) / 8,
                ),
            forall|x: int, y: int|
                0 <= x < old(self).node_at(id).spec_rect().width / 2 && 0 <= y < old(self).node_at(id).spec_rect().width / 2
                    ==> #[trigger] cell(final(self).nodes(), r.2.index as int, x, y) == cell(
                    old(self).nodes(),
                    id.index as int,
                    x + 1 * (old(self).node_at(id).spec_rect().width as int) / 8,
                    y + 3 * (old(self).node_at(id).spec_rect().width as int) / 8,
                ),
            forall|x: int, y: int|
                0 <= x < old(self).node_at(id).spec_rect().width / 2 && 0 <= y < old(self).node_at(id).spec_rect().width / 2
                    ==> #[trigger] cell(final(self).nodes(), r.3.index as int, x, y) == cell(
                    old(self).nodes(),
                    id.index as int,
                    x + 3 * (old(self).node_at(id).spec_rect().width as int) / 8,
                    y + 3 * (old(self).node_at(id).spec_rect().width as int) / 8,
                ),
    {
        let ghost a0 = self.arena@;
        let ghost t = self.node_at(id).spec_rect().width as int;
        let ghost f = |x: int, y: int| cell(a0, id.index as int, x, y);
        let node = self.get_node(id);
        let w = node.rect().width() / 2;
        let h = node.rect().height() / 2;
        let ghost u0 = *self;
        proof {
            assert(node_ok(self.arena@, id.index as int));
            lemma_split_area(self.node_at(id).spec_rect());
            self.lemma_block(id);
            lemma_block_side(a0, id.index as int);
            Self::lemma_half_block(self.node_at(id).spec_rect(), self.node_at(id).spec_level());
        }
        let (n00, n02, n20, n22) = self.corner_blocks(id);
        let ghost u1 = *self;
        let ghost a1 = self.arena@;
        let (n01, n10, n12, n21) = self.edge_blocks(id);
        let ghost u2 = *self;
        let ghost a2 = self.arena@;
        let n11 = self.centered_sub_subnode(id);
        let ghost a3 = self.arena@;
        proof {
            Self::lemma_keeps_trans(&u0, &u1, &u2);
            Self::lemma_keeps_trans(&u0, &u2, self);
            let c = self.node_at(id).spec_children().unwrap();
            assert(node_ok(self.arena@, c.nw.index as int));
            assert(self.arena@[c.nw.index as int] == u0.arena@[c.nw.index as int]);
            lemma_cells_frame(a1, a3, n00.index as int);
            lemma_cells_frame(a1, a3, n02.index as int);
            lemma_cells_frame(a1, a3, n20.index as int);
            lemma_cells_frame(a1, a3, n22.index as int);
            lemma_cells_frame(a2, a3, n01.index as int);
            lemma_cells_frame(a2, a3, n10.index as int);
            lemma_cells_frame(a2, a3, n12.index as int);
            lemma_cells_frame(a2, a3, n21.index as int);
            lemma_cells_frame(a0, a1, id.index as int);
            lemma_cells_frame(a0, a2, id.index as int);
            vstd::arithmetic::power2::lemma_pow2_unfold(self.node_at(id).spec_level());
            vstd::arithmetic::power2::lemma_pow2_unfold((self.node_at(id).spec_level() - 1) as nat);
            assert(t % 8 == 0);
            assert(t / 4 == 2 * (t / 8));
            assert(3 * t / 8 == t / 8 + t / 4);
            assert(5 * t / 8 == 3 * t / 8 + t / 4);
        }
        proof {
            assert forall|x: int, y: int| 0 <= x < t / 4 && 0 <= y < t / 4 implies {
                &&& #[trigger] cell(a3, n00.index as int, x, y) == f(x + t / 8, y + t / 8)
                &&& cell(a3, n01.index as int, x, y) == f(x + t / 4 + t / 8, y + t / 8)
                &&& cell(a3, n10.index as int, x, y) == f(x + t / 8, y + t / 4 + t / 8)
                &&& cell(a3, n11.index as int, x, y) == f(x + t / 4 + t / 8, y + t / 4 + t / 8)
            } by {
                assert(cell(a3, n00.index as int, x, y) == cell(a3, n00.index as int, x, y));
                assert(cell(a3, n01.index as int, x, y) == cell(a3, n01.index as int, x, y));
                assert(cell(a3, n10.index as int, x, y) == cell(a3, n10.index as int, x, y));
                assert(cell(a3, n11.index as int, x, y) == cell(a3, n11.index as int, x, y));
            }
        }
        let nw_pre = self.node_with_children(w, h, n00, n01, n10, n11);
        let ghost a4 = self.arena@;
        proof {
            self.lemma_block(nw_pre);
            lemma_assemble_old(a3, a4, nw_pre.index as int, (n00.index as int, n01.index as int, n10.index as int, n11.index as int), f, t / 8, t / 8);
        }
        proof {
            assert forall|x: int, y: int| 0 <= x < t / 4 && 0 <= y < t / 4 implies {
                &&& #[trigger] cell(a3, n01.index as int, x, y) == f(x + 3 * t / 8, y + t / 8)
                &&& cell(a3, n02.index as int, x, y) == f(x + t / 4 + 3 * t / 8, y + t / 8)
                &&& cell(a3, n11.index as int, x, y) == f(x + 3 * t / 8, y + t / 4 + t / 8)
                &&& cell(a3, n12.index as int, x, y) == f(x + t / 4 + 3 * t / 8, y + t / 4 + t / 8)
            } by {
                assert(cell(a3, n01.index as int, x, y) == cell(a3, n01.index as int, x, y));
                assert(cell(a3, n02.index as int, x, y) == cell(a3, n02.index as int, x, y));
                assert(cell(a3, n11.index as int, x, y) == cell(a3, n11.index as int, x, y));
                assert(cell(a3, n12.index as int, x, y) == cell(a3, n12.index as int, x, y));
            }
        }
        let ne_pre = self.node_with_children(w, h, n01, n02, n11, n12);
        let ghost a5 = self.arena@;
        proof {
            self.lemma_block(ne_pre);
            lemma_assemble_old(a3, a5, ne_pre.index as int, (n01.index as int, n02.index as int, n11.index as int, n12.index as int), f, 3 * t / 8, t / 8);
        }
        proof {
            assert forall|x: int, y: int| 0 <= x < t / 4 && 0 <= y < t / 4 implies {
                &&& #[trigger] cell(a3, n10.index as int, x, y) == f(x + t / 8, y + 3 * t / 8)
                &&& cell(a3, n11.index as int, x, y) == f(x + t / 4 + t / 8, y + 3 * t / 8)
                &&& cell(a3, n20.index as int, x, y) == f(x + t / 8, y + t / 4 + 3 * t / 8)
                &&& cell(a3, n21.index as int, x, y) == f(x + t / 4 + t / 8, y + t / 4 + 3 * t / 8)
            } by {
                assert(cell(a3, n10.index as int, x, y) == cell(a3, n10.index as int, x, y));
                assert(cell(a3, n11.index as int, x, y) == cell(a3, n11.index as int, x, y));
                assert(cell(a3, n20.index as int, x, y) == cell(a3, n20.index as int, x, y));
                assert(cell(a3, n21.index as int, x, y) == cell(a3, n21.index as int, x, y));
            }
        }
        let sw_pre = self.node_with_children(w, h, n10, n11, n20, n21);
        let ghost a6 = self.arena@;
        proof {
            self.lemma_block(sw_pre);
            lemma_assemble_old(a3, a6, sw_pre.index as int, (n10.index as int, n11.index as int, n20.index as int, n21.index as int), f, t / 8, 3 * t / 8);
        }
        proof {
            assert forall|x: int, y: int| 0 <= x < t / 4 && 0 <= y < t / 4 implies {
                &&& #[trigger] cell(a3, n11.index as int, x, y) == f(x + 3 * t / 8, y + 3 * t / 8)
                &&& cell(a3, n12.index as int, x, y) == f(x + t / 4 + 3 * t / 8, y + 3 * t / 8)
                &&& cell(a3, n21.index as int, x, y) == f(x + 3 * t / 8, y + t / 4 + 3 * t / 8)
                &&& cell(a3, n22.index as int, x, y) == f(x + t / 4 + 3 * t / 8, y + t / 4 + 3 * t / 8)
            } by {
                assert(cell(a3, n11.index as int, x, y) == cell(a3, n11.index as int, x, y));
                assert(cell(a3, n12.index as int, x, y) == cell(a3, n12.index as int, x, y));
                assert(cell(a3, n21.index as int, x, y) == cell(a3, n21.index as int, x, y));
                assert(cell(a3, n22.index as int, x, y) == cell(a3, n22.index as int, x, y));
            }
        }
        let se_pre = self.node_with_children(w, h, n11, n12, n21, n22);
        let ghost a7 = self.arena@;
        proof {
            self.lemma_block(se_pre);
            lemma_assemble_old(a3, a7, se_pre.index as int, (n11.index as int, n12.index as int, n21.index as int, n22.index as int), f, 3 * t / 8, 3 * t / 8);
            lemma_cells_frame(a4, a7, nw_pre.index as int);
            lemma_cells_frame(a5, a7, ne_pre.index as int);
            lemma_cells_frame(a6, a7, sw_pre.index as int);
        }
        (nw_pre, ne_pre, sw_pre, se_pre)
    }

    /// The centre half of node `id`, one generation on: from the memo table
    /// if it is there, else computed (directly for a 16 by 16 block, through
    /// nine overlapping sub-blocks above that) and recorded in it.
#[verifier::spinoff_prover]
    pub fn step_node(&mut self, id: NodeId) -> (r: NodeId)
        requires
            old(self).store_wf(),
            old(self).space_table().wf(),
            old(self).valid(id),
            old(self).node_at(id).spec_level() >= 2,
            is_block(old(self).node_at(id).spec_rect(), old(self).node_at(id).spec_level()),
        ensures
            final(self).store_wf(),
            final(self).keeps(old(self)),
            final(self).space_table().wf(),
            final(self).valid(r),
            final(self).node_at(r).spec_rect() == half(old(self).node_at(id).spec_rect()),
            final(self).node_at(r).spec_level() + 1 == old(self).node_at(id).spec_level(),
            final(self).memo().contains_key(id.index),
            final(self).memo()[id.index] == r,
            old(self).memo().contains_key(id.index) ==> r == old(self).memo()[id.index]
                && final(self).nodes() == old(self).nodes() && final(self).memo() == old(self).memo()
                && final(self).empties() == old(self).empties(),
            steps_to(final(self).nodes(), id.index as int, r.index as int),
            !old(self).memo().contains_key(id.index) && old(self).node_at(id).spec_population() == 0
                ==> r == old(self).node_at(id).spec_children().unwrap().nw,
            !old(self).memo().contains_key(id.index) && 0 < old(self).node_at(id).spec_population() < 3
                ==> ({
                let key = dims_key(
                    half(old(self).node_at(id).spec_rect()).width as nat,
                    half(old(self).node_at(id).spec_rect()).height as nat,
                ) as u128;
                final(self).empties().contains_key(key) && final(self).empties()[key] == r
            }),
        decreases old(self).node_at(id).spec_level(), 1nat,
    {
        proof {
            assert(node_ok(self.arena@, id.index as int));
        }
        if let Some(next) = self.next_node_map.get(&id.index) {
            let next = *next;
            proof {
                assert(memo_ok(self.arena@, id.index as int, next.index as int));
                assert(node_ok(self.arena@, next.index as int));
                assert(self.arena@.is_prefix_of(self.arena@));
            }
            return next;
        }
        let ghost u0 = *self;
        let node = self.get_node(id);
        let population = node.population();
        let level = node.level();
        let width = node.rect().width();
        let height = node.rect().height();
        let ghost a0 = self.arena@;
        let ghost t = self.node_at(id).spec_rect().width as int;
        proof {
            self.lemma_block(id);
            lemma_block_side(a0, id.index as int);
        }
        let next = if population == 0 {
            let n = self.get_children(id).nw;
            proof {
                lemma_sparse_block(a0, id.index as int);
                lemma_quadrant_cells(a0, id.index as int, 0);
                let c = n.index as int;
                assert(node_ok(a0, id.index as int));
                assert(self.node_at(n).spec_population() == 0);
                lemma_sparse_block(a0, c);
                assert forall|x: int, y: int| 0 <= x < t / 2 && 0 <= y < t / 2 implies #[trigger] cell(a0, c, x, y)
                    == next_cell(a0, id.index as int, x + t / 4, y + t / 4) by {
                    assert(!cell(a0, c, x, y));
                    assert(!next_cell(a0, id.index as int, x + t / 4, y + t / 4));
                }
            }
            n
        } else if population < 3 {
            proof {
                lemma_split_area(self.node_at(id).spec_rect());
            }
            let n = self.node(width / 2, height / 2);
            proof {
                lemma_sparse_block(a0, id.index as int);
                let a1 = self.arena@;
                let c = n.index as int;
                lemma_cells_frame(a0, a1, id.index as int);
                lemma_flat_frame(a0, a1, id.index as int);
                let hside = (t / 2) as nat;
                vstd::arithmetic::power2::lemma_pow2_unfold(self.node_at(id).spec_level() + 1);
                assert forall|x: int, y: int| 0 <= x < t / 2 && 0 <= y < t / 2 implies #[trigger] cell(a1, c, x, y)
                    == next_cell(a1, id.index as int, x + t / 4, y + t / 4) by {
                    lemma_cell_index_bound(x as nat, y as nat, self.node_at(id).spec_level() + 1);
                    assert(!cell(a1, c, x, y));
                    assert(!next_cell(a0, id.index as int, x + t / 4, y + t / 4));
                }
            }
            n
        } else if level == 2 {
            let n = self.slow_sim(id);
            proof {
                let a1 = self.arena@;
                let c = n.index as int;
                lemma_flat_frame(a0, a1, id.index as int);
                vstd::arithmetic::power2::lemma2_to64();
                assert(t == 16);
                assert forall|x: int, y: int| 0 <= x < t / 2 && 0 <= y < t / 2 implies #[trigger] cell(a1, c, x, y)
                    == next_cell(a1, id.index as int, x + t / 4, y + t / 4) by {
                    crate::universe::morton::lemma_block_indices(x as nat, y as nat, 0);
                    crate::universe::morton::lemma_unmorton_morton(x as nat, y as nat);
                    assert(x < 8 && y < 8);
                    assert(pow2(3) == 8);
                    lemma_cell_index_bound(x as nat, y as nat, 3);
                    let m = morton(x as nat, y as nat) as int;
                    let p3 = pow2(3);
                    assert(p3 * p3 == 64) by (nonlinear_arith)
                        requires
                            p3 == 8,
                    ;
                    assert(m < 64);
                    assert(center_step(flat(a0, id.index as int), 16)[m] == next_cell(a0, id.index as int, x + 4, y + 4));
                }
            }
            n
        } else {
            self.step_quadrants(id)
        };
        let ghost mid = *self;
        proof {
            assert(steps_to(self.arena@, id.index as int, next.index as int));
            assert(self.arena@[id.index as int] == u0.arena@[id.index as int]);
            assert(node_ok(self.arena@, next.index as int));
            assert(!old(self).next_node_map@.contains_key(id.index));
        }
        self.next_node_map.insert(id.index, next);
        proof {
            assert forall|k: usize| #[trigger] self.next_node_map@.contains_key(k) implies memo_ok(
                self.arena@,
                k as int,
                self.next_node_map@[k].index as int,
            ) by {
                if k != id.index {
                    assert(mid.next_node_map@.contains_key(k));
                }
            }
            assert forall|t: usize| #[trigger] self.node_map@.contains_key(t) implies self.map_entry_ok(t) by {
                assert(mid.map_entry_ok(t));
            }
            assert forall|k: u128| #[trigger] self.empty_node_map@.contains_key(k) implies self.empty_entry_ok(k) by {
                assert(mid.empty_entry_ok(k));
            }
            assert forall|i: int| 0 <= i < self.arena@.len() implies #[trigger] self.registered(i) by {
                assert(mid.registered(i));
            }
            assert forall|k: usize| #[trigger] old(self).next_node_map@.contains_key(k) implies self.next_node_map@.contains_key(k)
                && self.next_node_map@[k] == old(self).next_node_map@[k] by {
                assert(mid.next_node_map@.contains_key(k));
                assert(k != id.index);
            }
        }
        next
    }

    /// The centre half of a block above 16 by 16, one generation on: the
    /// successors of its four overlapping blocks, put together.
    #[verifier::spinoff_prover]
    #[verifier::rlimit(100)]
    fn step_quadrants(&mut self, id: NodeId) -> (r: NodeId)
        requires
            old(self).store_wf(),
            old(self).space_table().wf(),
            old(self).valid(id),
            old(self).node_at(id).spec_level() >= 3,
            is_block(old(self).node_at(id).spec_rect(), old(self).node_at(id).spec_level()),
        ensures
            final(self).store_wf(),
            final(self).keeps(old(self)),
            final(self).space_table().wf(),
            final(self).valid(r),
            final(self).node_at(r).spec_rect() == half(old(self).node_at(id).spec_rect()),
            final(self).node_at(r).spec_level() + 1 == old(self).node_at(id).spec_level(),
            steps_to(final(self).nodes(), id.index as int, r.index as int),
        decreases old(self).node_at(id).spec_level(), 0nat,
    {
        let ghost u0 = *self;
        let ghost level = self.node_at(id).spec_level();
        let ghost pre_rect = half(self.node_at(id).spec_rect());
        let ghost q = half(pre_rect);
        let node = self.get_node(id);
        let w = node.rect().width() / 2;
        let h = node.rect().height() / 2;
        proof {
            assert(node_ok(self.arena@, id.index as int));
            vstd::arithmetic::power2::lemma_pow2_unfold(level);
            lemma_split_area(self.node_at(id).spec_rect());
        }
        let (nw_pre, ne_pre, sw_pre, se_pre) = self.overlapping_blocks(id);
        proof {
            assert(is_block(pre_rect, (level - 1) as nat));
        }
        let ghost u1 = *self;
        let nw = self.step_node(nw_pre);
        let ghost u2 = *self;
        let ne = self.step_node(ne_pre);
        let ghost u3 = *self;
        let sw = self.step_node(sw_pre);
        let ghost u4 = *self;
        let se = self.step_node(se_pre);
        proof {
            Self::lemma_keeps_trans(&u0, &u1, &u2);
            Self::lemma_keeps_trans(&u0, &u2, &u3);
            Self::lemma_keeps_trans(&u0, &u3, &u4);
            Self::lemma_keeps_trans(&u0, &u4, self);
            assert(self.node_at(nw).spec_rect() == q);
            assert(self.node_at(ne).spec_rect() == q);
            assert(self.node_at(sw).spec_rect() == q);
            assert(self.node_at(se).spec_rect() == q);
            assert(node_ok(self.arena@, nw.index as int));
            vstd::arithmetic::power2::lemma_pow2_unfold((level - 1) as nat);
            vstd::arithmetic::power2::lemma2_to64();
            lemma_split_area(pre_rect);
        }
        let ghost u5 = *self;
        let ghost a0 = u0.arena@;
        let ghost a1 = u1.arena@;
        let ghost a5 = u5.arena@;
        proof {
            lemma_steps_to_frame(u2.arena@, a5, nw_pre.index as int, nw.index as int);
            lemma_steps_to_frame(u3.arena@, a5, ne_pre.index as int, ne.index as int);
            lemma_steps_to_frame(u4.arena@, a5, sw_pre.index as int, sw.index as int);
        }
        let r = self.node_with_children(w, h, nw, ne, sw, se);
        proof {
            Self::lemma_keeps_trans(&u0, &u5, self);
            self.lemma_block(r);
            lemma_combine_steps(
                a0,
                a1,
                a5,
                self.arena@,
                id.index as int,
                (nw_pre.index as int, ne_pre.index as int, sw_pre.index as int, se_pre.index as int),
                (nw.index as int, ne.index as int, sw.index as int, se.index as int),
                r.index as int,
            );
        }
        r
    }

    /// Whether the grid is a square whose side is a power of two, at least 8:
    /// the grids that `step` works on.
    pub open spec fn steppable(&self) -> bool {
        let r = Rectangle { width: self.spec_width() as usize, height: self.spec_height() as usize };
        &&& self.spec_width() >= 8
        &&& is_block(r, shape_level(self.spec_width(), self.spec_height()))
        &&& 4 * self.spec_width() * self.spec_height() <= max_bits()
    }

    /// A node of twice the extent of `id` with `id` at its centre, bordered
    /// by `id`'s own cells wrapped around from the opposite edges: each of its
    /// quadrants is `id` rolled by half its extent both ways.
    #[verifier::spinoff_prover]
    #[verifier::rlimit(100)]
    pub fn expand_and_wrap(&mut self, id: NodeId) -> (r: NodeId)
        requires
            old(self).store_wf(),
            old(self).valid(id),
            old(self).node_at(id).spec_level() >= 1,
            is_block(old(self).node_at(id).spec_rect(), old(self).node_at(id).spec_level()),
            4 * area(old(self).node_at(id).spec_rect()) <= max_bits(),
        ensures
            final(self).store_wf(),
            final(self).keeps(old(self)),
            final(self).memo() == old(self).memo(),
            final(self).valid(r),
            final(self).node_at(r).spec_rect() == (Rectangle {
                width: (2 * old(self).node_at(id).spec_rect().width) as usize,
                height: (2 * old(self).node_at(id).spec_rect().height) as usize,
            }),
            final(self).node_at(r).spec_level() == old(self).node_at(id).spec_level() + 1,
            is_block(final(self).node_at(r).spec_rect(), final(self).node_at(r).spec_level()),
            ({
                let s = old(self).node_at(id).spec_rect().width as int;
                forall|u: int, v: int|
                    0 <= u < 2 * s && 0 <= v < 2 * s ==> #[trigger] cell(final(self).nodes(), r.index as int, u, v)
                        == cell(old(self).nodes(), id.index as int, wrap(u + s / 2, s), wrap(v + s / 2, s))
            }),
            wrapped_of(final(self).nodes(), id.index as int, r.index as int),
            forall|e: int|
                #[trigger] wrapped_of(old(self).nodes(), id.index as int, e) ==> r.index == e
                    && final(self).nodes() == old(self).nodes(),
    {
        let ghost a00 = self.arena@;
        let ghost a0 = self.arena@;
        let node = self.get_node(id);
        let w = node.rect().width();
        let h = node.rect().height();
        let ch = self.get_children(id);
        proof {
            assert(node_ok(self.arena@, id.index as int));
            assert(node_ok(self.arena@, ch.nw.index as int));
            lemma_split_area(self.node_at(id).spec_rect());
            assert(4 * area(self.node_at(id).spec_rect()) == (2 * w) * (2 * h)) by (nonlinear_arith)
                requires
                    area(self.node_at(id).spec_rect()) == w * h,
            ;
            assert(2 * w <= (2 * w) * (2 * h)) by (nonlinear_arith)
                requires
                    h >= 1,
            ;
            assert(2 * h <= (2 * w) * (2 * h)) by (nonlinear_arith)
                requires
                    w >= 1,
            ;
            self.lemma_block(id);
        }
        let rolled = self.node_with_children(w, h, ch.se, ch.sw, ch.ne, ch.nw);
        let ghost a1 = self.arena@;
        proof {
            assert forall|e: int| #[trigger] wrapped_of(a00, id.index as int, e) implies rolled.index == (choose|x: int|
                0 <= x < a00.len() && #[trigger] children_are(
                    a00,
                    x,
                    (quadrant(a00, id.index as int, 3), quadrant(a00, id.index as int, 2), quadrant(a00, id.index as int, 1), quadrant(a00, id.index as int, 0)),
                ) && children_are(a00, e, (x, x, x, x))) && a1 == a00 by {
                let x = choose|x: int|
                    0 <= x < a00.len() && #[trigger] children_are(
                        a00,
                        x,
                        (quadrant(a00, id.index as int, 3), quadrant(a00, id.index as int, 2), quadrant(a00, id.index as int, 1), quadrant(a00, id.index as int, 0)),
                    ) && children_are(a00, e, (x, x, x, x));
                assert(a00[x].spec_children() == Some(SubNode { nw: ch.se, ne: ch.sw, sw: ch.ne, se: ch.nw }));
            }
        }
        proof {
            assert(node_ok(self.arena@, rolled.index as int));
            self.lemma_block(rolled);
        }
        let r = self.node_with_children(2 * w, 2 * h, rolled, rolled, rolled, rolled);
        proof {
            vstd::arithmetic::power2::lemma_pow2_unfold(self.node_at(r).spec_level());
            self.lemma_block(r);
            lemma_wrap_cells(a0, a1, self.arena@, id.index as int, rolled.index as int, r.index as int);
            let af = self.arena@;
            assert(af[id.index as int] == a00[id.index as int]);
            assert(children_are(af, rolled.index as int, (quadrant(af, id.index as int, 3), quadrant(af, id.index as int, 2), quadrant(af, id.index as int, 1), quadrant(af, id.index as int, 0))));
            assert(wrapped_of(af, id.index as int, r.index as int));
            assert forall|e: int| #[trigger] wrapped_of(a00, id.index as int, e) implies r.index == e && af == a00 by {
                let x = choose|x: int|
                    0 <= x < a00.len() && #[trigger] children_are(
                        a00,
                        x,
                        (quadrant(a00, id.index as int, 3), quadrant(a00, id.index as int, 2), quadrant(a00, id.index as int, 1), quadrant(a00, id.index as int, 0)),
                    ) && children_are(a00, e, (x, x, x, x));
                assert(a00[e].spec_children() == Some(SubNode { nw: rolled, ne: rolled, sw: rolled, se: rolled }));
            }
        }
        r
    }

    /// A node of twice the extent of `id` with `id` at its centre and dead
    /// cells around it.
    #[verifier::spinoff_prover]
    #[verifier::rlimit(60)]
    pub fn expand(&mut self, id: NodeId) -> (r: NodeId)
        requires
            old(self).store_wf(),
            old(self).valid(id),
            old(self).node_at(id).spec_level() >= 1,
            is_block(old(self).node_at(id).spec_rect(), old(self).node_at(id).spec_level()),
            4 * area(old(self).node_at(id).spec_rect()) <= max_bits(),
        ensures
            final(self).store_wf(),
            final(self).keeps(old(self)),
            final(self).memo() == old(self).memo(),
            final(self).valid(r),
            final(self).node_at(r).spec_rect() == (Rectangle {
                width: (2 * old(self).node_at(id).spec_rect().width) as usize,
                height: (2 * old(self).node_at(id).spec_rect().height) as usize,
            }),
            final(self).node_at(r).spec_level() == old(self).node_at(id).spec_level() + 1,
            is_block(final(self).node_at(r).spec_rect(), final(self).node_at(r).spec_level()),
            ({
                let t = old(self).node_at(id).spec_rect().width as int;
                forall|u: int, v: int|
                    0 <= u < 2 * t && 0 <= v < 2 * t ==> #[trigger] cell(final(self).nodes(), r.index as int, u, v)
                        == (if t / 2 <= u < 3 * t / 2 && t / 2 <= v < 3 * t / 2 {
                        cell(old(self).nodes(), id.index as int, u - t / 2, v - t / 2)
                    } else {
                        false
                    })
            }),
    {
        let ghost a0 = self.arena@;
        let node = self.get_node(id);
        let w = node.rect().width();
        let h = node.rect().height();
        let ch = self.get_children(id);
        let ghost u0 = *self;
        proof {
            assert(node_ok(self.arena@, id.index as int));
            assert(node_ok(self.arena@, ch.nw.index as int));
            lemma_split_area(self.node_at(id).spec_rect());
            assert(4 * area(self.node_at(id).spec_rect()) == (2 * w) * (2 * h)) by (nonlinear_arith)
                requires
                    area(self.node_at(id).spec_rect()) == w * h,
            ;
            assert(2 * w <= (2 * w) * (2 * h)) by (nonlinear_arith)
                requires
                    h >= 1,
            ;
            assert(2 * h <= (2 * w) * (2 * h)) by (nonlinear_arith)
                requires
                    w >= 1,
            ;
            self.lemma_block(id);
            Self::lemma_half_block(self.node_at(id).spec_rect(), self.node_at(id).spec_level());
        }
        let br = self.node(w / 2, h / 2);
        let ghost a1 = self.arena@;
        proof {
            Self::lemma_keeps_node(&u0, self, ch.nw);
            Self::lemma_keeps_node(&u0, self, ch.ne);
            Self::lemma_keeps_node(&u0, self, ch.sw);
            Self::lemma_keeps_node(&u0, self, ch.se);
            assert(node_ok(self.arena@, br.index as int));
            assert(node_ok(self.arena@, ch.nw.index as int));
            self.lemma_block(br);
        }
        let nw_ex = self.node_with_children(w, h, br, br, br, ch.nw);
        let ne_ex = self.node_with_children(w, h, br, br, ch.ne, br);
        let sw_ex = self.node_with_children(w, h, br, ch.sw, br, br);
        let se_ex = self.node_with_children(w, h, ch.se, br, br, br);
        let ghost a2 = self.arena@;
        proof {
            assert(node_ok(self.arena@, nw_ex.index as int));
            self.lemma_block(nw_ex);
            self.lemma_block(ne_ex);
            self.lemma_block(sw_ex);
            self.lemma_block(se_ex);
        }
        let r = self.node_with_children(2 * w, 2 * h, nw_ex, ne_ex, sw_ex, se_ex);
        proof {
            vstd::arithmetic::power2::lemma_pow2_unfold(self.node_at(r).spec_level());
            self.lemma_block(r);
            lemma_border_cells(
                a0,
                a1,
                a2,
                self.arena@,
                id.index as int,
                br.index as int,
                nw_ex.index as int,
                ne_ex.index as int,
                sw_ex.index as int,
                se_ex.index as int,
                r.index as int,
            );
        }
        r
    }

    /// Advances the grid one generation on the torus: the root is wrapped
    /// once (each new border filled from the opposite edge), given one dead
    /// border more if it is below the level that the decomposition needs,
    /// stepped, and cut back to its own extent.
    #[verifier::spinoff_prover]
    #[verifier::rlimit(100)]
    pub fn step(&mut self)
        requires
            old(self).wf(),
            old(self).steppable(),
        ensures
            final(self).regrown(old(self)),
            final(self).node_at(final(self).spec_root()).spec_level() == old(self).node_at(
                old(self).spec_root(),
            ).spec_level(),
            final(self).cells() == torus_next(old(self).cells(), old(self).spec_width() as int),
            final(self).cells() == old(self).cells() ==> final(self).spec_root() == old(self).spec_root(),
            old(self).node_at(old(self).spec_root()).spec_level() >= 2 ==> exists|e: int|
                #[trigger] wrapped_of(final(self).nodes(), old(self).spec_root().index as int, e)
                    && final(self).memo().contains_key(e as usize),
            old(self).node_at(old(self).spec_root()).spec_level() >= 2 && (exists|e: int|
                #[trigger] wrapped_of(old(self).nodes(), old(self).spec_root().index as int, e)
                    && old(self).memo().contains_key(e as usize)) ==> final(self).nodes() == old(
                self,
            ).nodes() && final(self).memo() == old(self).memo(),
    {
        let ghost u0 = *self;
        let ghost a0 = self.arena@;
        let ghost side = self.width as int;
        let ghost ri = self.root.index as int;
        let root_level = self.get_level(self.root);
        proof {
            let arena = self.arena@;
            assert(node_ok(arena, self.root.index as int));
            vstd::arithmetic::power2::lemma2_to64();
            vstd::arithmetic::power2::lemma_pow2_pos(root_level as nat);
            if root_level == 0 {
                assert(side == 4);
            }
            let hh = self.height as nat;
            assert(4 * side * hh == 4 * (side * hh)) by (nonlinear_arith);
            assert(4 * area(self.node_at(self.root).spec_rect()) <= max_bits());
            assert(side == 4 * vstd::arithmetic::power2::pow2(root_level as nat));
            self.lemma_block(self.root);
        }
        let wrapped = self.expand_and_wrap(self.root);
        let ghost u1 = *self;
        let ghost a1 = self.arena@;
        let ghost wi = wrapped.index as int;
        proof {
            vstd::arithmetic::power2::lemma_pow2_unfold((root_level + 1) as nat);
            vstd::arithmetic::power2::lemma_pow2_unfold((root_level + 2) as nat);
        }
        let next = if self.get_level(wrapped) < 3 {
            // the wrapped root is at level 2 here: one dead border brings it
            // to the level the decomposition needs
            proof {
                vstd::arithmetic::power2::lemma2_to64();
                assert(side == 8);
                assert(self.height == 8);
                assert(self.node_at(wrapped).spec_rect().width == 16);
                assert(self.node_at(wrapped).spec_rect().height == 16);
                assert(area(self.node_at(wrapped).spec_rect()) == 256);
                assert(1024 <= max_bits());
            }
            let bordered = self.expand(wrapped);
            let ghost u2 = *self;
            let ghost a2 = self.arena@;
            proof {
                Self::lemma_keeps_trans(&u0, &u1, self);
                vstd::arithmetic::power2::lemma_pow2_unfold(self.node_at(bordered).spec_level());
            }
            let stepped = self.step_node(bordered);
            let ghost u3 = *self;
            let ghost a3 = self.arena@;
            proof {
                Self::lemma_keeps_trans(&u0, &u2, self);
                vstd::arithmetic::power2::lemma_pow2_unfold(u2.node_at(bordered).spec_level());
            }
            let n = self.centered_subnode(stepped);
            proof {
                Self::lemma_keeps_trans(&u0, &u3, self);
                let bi = bordered.index as int;
                let si = stepped.index as int;
                lemma_flat_frame(a2, a3, bi);
                lemma_flat_frame(a1, a3, wi);
                assert(a3[bi] == a2[bi]);
                assert forall|x: int, y: int| 0 <= x < side && 0 <= y < side implies #[trigger] cell(
                    self.arena@,
                    n.index as int,
                    x,
                    y,
                ) == next_cell(a1, wi, x + side / 2, y + side / 2) by {
                    assert(cell(self.arena@, n.index as int, x, y) == cell(a3, si, x + 4, y + 4));
                    assert(cell(a3, si, x + 4, y + 4) == next_cell(a3, bi, x + 12, y + 12));
                    assert forall|u: int, v: int| x + 11 <= u <= x + 13 && y + 11 <= v <= y + 13 implies #[trigger] cell(
                        a3,
                        bi,
                        u,
                        v,
                    ) == cell(a1, wi, u + -8, v + -8) by {
                        assert(cell(a2, bi, u, v) == cell(a1, wi, u - 8, v - 8));
                    }
                    lemma_window(a3, bi, a1, wi, x + 12, y + 12, -8, -8);
                }
            }
            n
        } else {
            let n = self.step_node(wrapped);
            proof {
                lemma_wrapped_frame(a1, self.arena@, ri, wi);
                assert(wrapped_of(self.arena@, ri, wi) && self.next_node_map@.contains_key(wi as usize));
                if exists|e: int| #[trigger] wrapped_of(a0, ri, e) && u0.next_node_map@.contains_key(e as usize) {
                    let e = choose|e: int| #[trigger] wrapped_of(a0, ri, e) && u0.next_node_map@.contains_key(e as usize);
                    assert(wi == e && a1 == a0);
                    assert(u1.next_node_map@.contains_key(wrapped.index));
                }
                Self::lemma_keeps_trans(&u0, &u1, self);
                lemma_flat_frame(a1, self.arena@, wi);
                assert(self.arena@[wi] == a1[wi]);
                assert forall|x: int, y: int| 0 <= x < side && 0 <= y < side implies #[trigger] cell(
                    self.arena@,
                    n.index as int,
                    x,
                    y,
                ) == next_cell(a1, wi, x + side / 2, y + side / 2) by {
                    assert(cell(self.arena@, n.index as int, x, y) == next_cell(self.arena@, wi, x + (2 * side) / 4, y + (2 * side) / 4));
                }
            }
            n
        };
        proof {
            let af = self.arena@;
            let ni = next.index as int;
            let l = root_level as nat;
            assert(side == pow2(l + 2));
            assert forall|j: int| 0 <= j <= ni implies #[trigger] node_ok(af, j) by {}
            lemma_flat_shape(af, ni);
            assert forall|j: int| 0 <= j <= ri implies #[trigger] node_ok(a0, j) by {}
            lemma_flat_shape(a0, ri);
            let c0 = flat(a0, ri);
            let c1 = flat(af, ni);
            assert(c1.len() == side * side);
            assert(c0.len() == side * side);
            assert forall|i: int| 0 <= i < c1.len() implies c1[i] == #[trigger] torus_next(c0, side)[i] by {
                crate::universe::morton::lemma_unmorton_bound(i as nat, l + 2);
                crate::universe::morton::lemma_morton_unmorton(i as nat);
                let (x, y) = unmorton(i as nat);
                lemma_torus_step(a1, wi, a0, ri, side, x as int, y as int);
                assert(c1[i] == cell(af, ni, x as int, y as int));
            }
            assert(c1 =~= torus_next(c0, side));
        }
        let ghost mid = *self;
        self.root = next;
        proof {
            Self::lemma_regrown(&u0, &mid, self);
            if self.cells() == u0.cells() {
                Self::lemma_keeps_node(&u0, &mid, u0.root);
                lemma_flat_frame(a0, self.arena@, ri);
                lemma_same_cells(self, self.root, u0.root);
            }
        }
    }

    /// What a store operation leaves alone: the grid, its root and the
    /// nodes already made.
    pub open spec fn keeps(&self, old: &Universe) -> bool {
        &&& old.nodes().is_prefix_of(self.nodes())
        &&& forall|i: int| 0 <= i < old.nodes().len() ==> #[trigger] self.nodes()[i] == old.nodes()[i]
        &&& self.spec_root() == old.spec_root()
        &&& self.spec_width() == old.spec_width()
        &&& self.spec_height() == old.spec_height()
        &&& self.space_table().spec_width() == old.space_table().spec_width()
        &&& self.space_table().spec_height() == old.space_table().spec_height()
        &&& (old.space_table().wf() ==> self.space_table().wf())
        &&& old.memo().submap_of(self.memo())
        &&& old.empties().submap_of(self.empties())
    }
}

impl Default for Universe {
    /// A dead grid of 64 by 64 cells.
    fn default() -> (r: Self)
        ensures
            r.wf(),
            r.grid_ok(),
            r.spec_width() == 64,
            r.spec_height() == 64,
            r.cells() == Seq::new(64 * 64, |i: int| false),
    {
        Universe::new(64, 64)
    }
}

/// Hash-consing: two nodes of a store with the same content (the same four
/// child handles, or the same extent and bits) have the same handle.
pub proof fn lemma_hash_consing(u: &Universe, a: NodeId, b: NodeId)
    requires
        u.store_wf(),
        u.valid(a),
        u.valid(b),
        content(u.node_at(a)) == content(u.node_at(b)),
    ensures
        a == b,
{
    assert(content(u.arena@[a.index as int]) == content(u.arena@[b.index as int]));
}

/// The population of every node is the number of its live cells, and that
/// of an internal node is the sum of its quadrants' populations.
pub proof fn lemma_population(u: &Universe, id: NodeId)
    requires
        u.store_wf(),
        u.valid(id),
    ensures
        u.node_at(id).spec_population() == count_true(u.cells_of(id)),
        u.node_at(id).spec_children() is Some ==> {
            let c = u.node_at(id).spec_children().unwrap();
            u.node_at(id).spec_population() == u.node_at(c.nw).spec_population() + u.node_at(
                c.ne,
            ).spec_population() + u.node_at(c.sw).spec_population() + u.node_at(
                c.se,
            ).spec_population()
        },
{
    let arena = u.arena@;
    assert forall|j: int| 0 <= j <= id.index implies #[trigger] node_ok(arena, j) by {}
    lemma_flat_shape(arena, id.index as int);
    assert(node_ok(arena, id.index as int));
}

/// Setting cells that are already alive changes nothing: so writing back the
/// live cells that `get_cells` shows gives the same grid.
pub proof fn lemma_set_live_cells(s: Seq<bool>, cells: Seq<(usize, usize)>)
    requires
        forall|k: int|
            0 <= k < cells.len() ==> {
                let i = morton(#[trigger] cells[k].0 as nat, cells[k].1 as nat);
                i < s.len() && s[i as int]
            },
    ensures
        with_cells_set(s, cells) == s,
    decreases cells.len(),
{
    if cells.len() > 0 {
        let rest = cells.drop_last();
        assert forall|k: int| 0 <= k < rest.len() implies {
            let i = morton(#[trigger] rest[k].0 as nat, rest[k].1 as nat);
            i < s.len() && s[i as int]
        } by {
            assert(rest[k] == cells[k]);
        }
        lemma_set_live_cells(s, rest);
        let last = cells[cells.len() - 1];
        assert(s.update(morton(last.0 as nat, last.1 as nat) as int, true) =~= s);
    }
}

/// Clearing twice leaves the same root: the canonical empty node.
pub proof fn lemma_clear_twice(a: &Universe, b: &Universe, c: &Universe)
    requires
        cleared(a, b),
        cleared(b, c),
    ensures
        c.spec_root() == b.spec_root(),
{
}

/// Two nodes of a store with the same extent and the same cells are one
/// node: rebuilding a region with the cells it had gives its old handle.
pub proof fn lemma_same_cells(u: &Universe, a: NodeId, b: NodeId)
    requires
        u.store_wf(),
        u.valid(a),
        u.valid(b),
        u.node_at(a).spec_rect() == u.node_at(b).spec_rect(),
        u.cells_of(a) == u.cells_of(b),
    ensures
        a == b,
{
    let arena = u.nodes();
    assert forall|k: int| 0 <= k < arena.len() implies #[trigger] node_ok(arena, k) by {}
    lemma_cells_determine(arena, a.index as int, b.index as int);
}

/// A region rebuilt with the same content as a node already stepped is that
/// node, so stepping it finds the same memo entry.
pub proof fn lemma_memo_hit(u: &Universe, a: NodeId, b: NodeId)
    requires
        u.store_wf(),
        u.valid(a),
        u.valid(b),
        content(u.node_at(a)) == content(u.node_at(b)),
        u.memo().contains_key(a.index),
    ensures
        u.memo().contains_key(b.index),
        u.memo()[b.index] == u.memo()[a.index],
{
    lemma_hash_consing(u, a, b);
}

/// Relies on `rand::random`: a bit drawn at random. Nothing is known of it.
#[verifier::external_body]
fn random_bit() -> bool {
    rand::random()
}

} // verus!
