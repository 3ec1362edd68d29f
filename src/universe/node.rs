//! Quadtree nodes: a leaf holds its cells as bits, an internal node holds the
//! handles of its four quadrants.
use crate::universe::rect::Rectangle;
use crate::universe::space::count_true;
use crate::universe::space::space_copy_range;
use crate::universe::space::space_count_ones;
use crate::universe::space::space_get;
use crate::universe::space::space_len;
use crate::universe::space::space_zeros;
use crate::universe::space::max_bits;
use crate::universe::space::BitSpace;
use vstd::prelude::*;

verus! {

/// The handle of a node: its position in the arena of the universe that made it.
#[derive(Debug, Clone, Copy, PartialEq, Eq, Structural, Hash)]
pub struct NodeId {
    pub index: usize,
}

impl NodeId {
    pub fn new(index: usize) -> (r: Self)
        ensures
            r.index == index,
    {
        NodeId { index }
    }

    pub fn index(self) -> (r: usize)
        ensures
            r == self.index,
    {
        self.index
    }
}

/// The four quadrants of an internal node: north-west, north-east, south-west
/// and south-east.
#[derive(Debug, Clone, Copy, PartialEq, Eq, Structural, Hash)]
pub struct SubNode {
    pub nw: NodeId,
    pub ne: NodeId,
    pub sw: NodeId,
    pub se: NodeId,
}

impl SubNode {
    pub fn nw(&self) -> (r: NodeId)
        ensures
            r == self.nw,
    {
        self.nw
    }

    pub fn ne(&self) -> (r: NodeId)
        ensures
            r == self.ne,
    {
        self.ne
    }

    pub fn sw(&self) -> (r: NodeId)
        ensures
            r == self.sw,
    {
        self.sw
    }

    pub fn se(&self) -> (r: NodeId)
        ensures
            r == self.se,
    {
        self.se
    }

    pub fn new(nw: NodeId, ne: NodeId, sw: NodeId, se: NodeId) -> (r: Self)
        ensures
            r == (SubNode { nw, ne, sw, se }),
    {
        SubNode { nw, ne, sw, se }
    }
}

/// A region of cells: a leaf with a bit per cell, or an internal node with four
/// quadrants. Nodes do not change once made.
#[derive(Debug)]
pub struct Node {
    rect: Rectangle,
    population: usize,
    level: usize,
    space: Option<BitSpace>,
    children: Option<Box<SubNode>>,
}

impl Node {
    pub closed spec fn spec_rect(&self) -> Rectangle {
        self.rect
    }

    pub closed spec fn spec_population(&self) -> nat {
        self.population as nat
    }

    pub closed spec fn spec_level(&self) -> nat {
        self.level as nat
    }

    /// The cells of a leaf, in Z-order; `None` for an internal node.
    pub closed spec fn spec_space(&self) -> Option<Seq<bool>> {
        match self.space {
            Some(b) => Some(b@),
            None => None,
        }
    }

    /// The quadrants of an internal node; `None` for a leaf.
    pub closed spec fn spec_children(&self) -> Option<SubNode> {
        match self.children {
            Some(c) => Some(*c),
            None => None,
        }
    }

    /// A leaf holds exactly one bit per cell of its region and counts the set
    /// ones; a node is a leaf or has quadrants, never both.
    pub open spec fn wf(&self) -> bool {
        match self.spec_space() {
            Some(bits) => {
                &&& self.spec_children() is None
                &&& self.spec_level() == 0
                &&& bits.len() == self.spec_rect().width * self.spec_rect().height
                &&& self.spec_population() == count_true(bits)
            },
            None => self.spec_children() is Some,
        }
    }

    /// An all-dead leaf of `width` by `height` cells.
    pub fn new(width: usize, height: usize) -> (r: Self)
        requires
            width * height <= max_bits(),
        ensures
            r.wf(),
            r.spec_rect() == (Rectangle { width, height }),
            r.spec_space() == Some(Seq::new((width * height) as nat, |i: int| false)),
            r.spec_population() == 0,
    {
        let space = space_zeros(width * height);
        proof {
            lemma_count_true_none(space@);
        }
        Node {
            rect: Rectangle::new(width, height),
            population: 0,
            level: 0,
            space: Some(space),
            children: None,
        }
    }

    /// A leaf holding a copy of `space`.
    pub fn with_bits(width: usize, height: usize, space: &BitSpace) -> (r: Self)
        requires
            space@.len() == width * height,
        ensures
            r.wf(),
            r.spec_rect() == (Rectangle { width, height }),
            r.spec_space() == Some(space@),
    {
        let len = space_len(space);
        let bits = space_copy_range(space, 0, len);
        assert(bits@ =~= space@);
        let population = space_count_ones(&bits);
        Node {
            rect: Rectangle::new(width, height),
            population,
            level: 0,
            space: Some(bits),
            children: None,
        }
    }

    /// An internal node over `children`, with the population and level given.
    pub fn with_children(
        width: usize,
        height: usize,
        children: Box<SubNode>,
        population: usize,
        level: usize,
    ) -> (r: Self)
        ensures
            r.wf(),
            r.spec_rect() == (Rectangle { width, height }),
            r.spec_space() is None,
            r.spec_children() == Some(*children),
            r.spec_population() == population,
            r.spec_level() == level,
    {
        Node { rect: Rectangle::new(width, height), population, level, space: None, children: Some(children) }
    }

    pub fn rect(&self) -> (r: &Rectangle)
        ensures
            *r == self.spec_rect(),
    {
        &self.rect
    }

    pub fn children(&self) -> (r: &Option<Box<SubNode>>)
        ensures
            r.is_some() == self.spec_children().is_some(),
            r.is_some() ==> *r.unwrap() == self.spec_children().unwrap(),
    {
        &self.children
    }

    /// The cells of a leaf.
    pub fn space(&self) -> (r: &BitSpace)
        requires
            self.spec_space() is Some,
        ensures
            r@ == self.spec_space().unwrap(),
    {
        self.space.as_ref().unwrap()
    }

    pub fn population(&self) -> (r: usize)
        ensures
            r == self.spec_population(),
    {
        self.population
    }

    pub fn level(&self) -> (r: usize)
        ensures
            r == self.spec_level(),
    {
        self.level
    }

    /// The cell at `row * width + col` of a leaf's buffer; an error for a
    /// coordinate outside the leaf or its buffer, or for an internal node.
    pub fn get_cell(&self, row: usize, col: usize) -> (r: Result<bool, &'static str>)
        requires
            self.wf(),
        ensures
            r is Ok <==> (self.spec_space() is Some && row < self.spec_rect().width && col
                < self.spec_rect().height && row * self.spec_rect().width + col
                < self.spec_rect().width * self.spec_rect().height),
            r is Ok ==> r->Ok_0 == self.spec_space().unwrap()[row * self.spec_rect().width + col],
    {
        match &self.space {
            Some(space) => {
                if row >= self.rect.width() {
                    Err("row out of range for width")
                } else if col >= self.rect.height() {
                    Err("col out of range for height")
                } else {
                    let len = space_len(space);
                    // rows run along the width, so a region taller than wide
                    // has cells past the end of its buffer
                    let index = match row.checked_mul(self.rect.width()) {
                        Some(p) => p.checked_add(col),
                        None => None,
                    };
                    match index {
                        Some(i) if i < len => Ok(space_get(space, i)),
                        _ => Err("cell outside the leaf's buffer"),
                    }
                }
            },
            None => Err("Node doesn't have a bit space! ask a child."),
        }
    }

    pub fn has_space(&self) -> (r: bool)
        ensures
            r == self.spec_space() is Some,
    {
        self.space.is_some()
    }

    pub fn has_children(&self) -> (r: bool)
        ensures
            r == self.spec_children() is Some,
    {
        self.children.is_some()
    }
}

impl Default for Node {
    /// An all-dead leaf of 2 by 2 cells.
    fn default() -> (r: Self)
        ensures
            r.wf(),
            r.spec_rect() == (Rectangle { width: 2, height: 2 }),
            r.spec_space() == Some(Seq::new(4, |i: int| false)),
            r.spec_population() == 0,
    {
        Node::new(2, 2)
    }
}

/// A buffer with no set bit counts none.
pub proof fn lemma_count_true_none(s: Seq<bool>)
    requires
        forall|i: int| 0 <= i < s.len() ==> !#[trigger] s[i],
    ensures
        count_true(s) == 0,
    decreases s.len(),
{
    if s.len() > 0 {
        lemma_count_true_none(s.drop_last());
    }
}

} // verus!
