//! The mathematical model of the quadtree: the cells each node stands for,
//! the consistency of an arena of nodes, Life's rule on blocks and on the
//! torus, and the lemmas that relate them.
use crate::universe::morton::morton;
use crate::universe::morton::unmorton;
use crate::universe::node::Node;
use crate::universe::rect::Rectangle;
use crate::universe::space::count_true;
use crate::universe::space::max_bits;
use vstd::arithmetic::power2::pow2;
use vstd::prelude::*;

verus! {

/// Whether a region of `w` by `h` cells is stored as four quadrants: it is
/// larger than a leaf both ways and halves exactly.
pub open spec fn splits(w: nat, h: nat) -> bool {
    w > 4 && h > 4 && w % 2 == 0 && h % 2 == 0
}

/// The level of every node of `w` by `h` cells: how many times it halves
/// before it is a leaf.
pub open spec fn shape_level(w: nat, h: nat) -> nat
    decreases w,
{
    if splits(w, h) {
        1 + shape_level(w / 2, h / 2)
    } else {
        0
    }
}

/// Bits as integer symbols.
pub open spec fn bit_symbols(bits: Seq<bool>) -> Seq<usize> {
    bits.map_values(|b: bool| if b { 1usize } else { 0usize })
}

/// What makes two nodes the same: the four child handles of an internal
/// node; the extent and the bits of a leaf.
pub open spec fn content(n: Node) -> Seq<usize> {
    match n.spec_children() {
        Some(c) => seq![1usize, c.nw.index, c.ne.index, c.sw.index, c.se.index],
        None => seq![0usize, n.spec_rect().width, n.spec_rect().height] + bit_symbols(
            n.spec_space().unwrap(),
        ),
    }
}

/// The cells of node `i`: a leaf's bits, or the cells of the four quadrants
/// one after another (north-west, north-east, south-west, south-east).
pub open spec fn flat(arena: Seq<Node>, i: int) -> Seq<bool>
    decreases i,
{
    if 0 <= i < arena.len() {
        match arena[i].spec_space() {
            Some(bits) => bits,
            None => match arena[i].spec_children() {
                Some(c) => if c.nw.index < i && c.ne.index < i && c.sw.index < i && c.se.index < i {
                    flat(arena, c.nw.index as int) + flat(arena, c.ne.index as int) + flat(
                        arena,
                        c.sw.index as int,
                    ) + flat(arena, c.se.index as int)
                } else {
                    Seq::empty()
                },
                None => Seq::empty(),
            },
        }
    } else {
        Seq::empty()
    }
}

/// The extent of each quadrant of a region of `w` by `h` cells.
pub open spec fn half(r: Rectangle) -> Rectangle {
    Rectangle { width: (r.width / 2) as usize, height: (r.height / 2) as usize }
}

pub open spec fn area(r: Rectangle) -> nat {
    r.width as nat * r.height as nat
}

/// Node `i` is consistent with the nodes before it: its level follows from
/// its extent, a leaf does not split, and an internal node splits into four
/// earlier nodes of half its extent whose populations add up to its own.
pub open spec fn node_ok(arena: Seq<Node>, i: int) -> bool {
    let n = arena[i];
    let r = n.spec_rect();
    &&& n.wf()
    &&& area(r) <= max_bits()
    &&& n.spec_population() <= area(r)
    &&& n.spec_level() == shape_level(r.width as nat, r.height as nat)
    &&& match n.spec_children() {
        Some(c) => {
            &&& splits(r.width as nat, r.height as nat)
            &&& c.nw.index < i && c.ne.index < i && c.sw.index < i && c.se.index < i
            &&& arena[c.nw.index as int].spec_rect() == half(r)
            &&& arena[c.ne.index as int].spec_rect() == half(r)
            &&& arena[c.sw.index as int].spec_rect() == half(r)
            &&& arena[c.se.index as int].spec_rect() == half(r)
            &&& n.spec_population() == arena[c.nw.index as int].spec_population()
                + arena[c.ne.index as int].spec_population() + arena[c.sw.index as int].spec_population()
                + arena[c.se.index as int].spec_population()
        },
        None => !splits(r.width as nat, r.height as nat),
    }
}

/// Two nodes agree in every field.
pub open spec fn same_node(a: Node, b: Node) -> bool {
    &&& a.spec_rect() == b.spec_rect()
    &&& a.spec_population() == b.spec_population()
    &&& a.spec_level() == b.spec_level()
    &&& a.spec_space() == b.spec_space()
    &&& a.spec_children() == b.spec_children()
}

/// A square of side `4 * 2^level`: the shape that the step works on.
pub open spec fn is_block(r: Rectangle, level: nat) -> bool {
    r.width == r.height && r.width == 4 * vstd::arithmetic::power2::pow2(level)
}

/// A memo entry: `v` is the successor of `k`, half its size.
pub open spec fn memo_ok(arena: Seq<Node>, k: int, v: int) -> bool {
    &&& 0 <= k < arena.len()
    &&& 0 <= v < arena.len()
    &&& arena[k].spec_level() >= 2
    &&& is_block(arena[k].spec_rect(), arena[k].spec_level())
    &&& arena[v].spec_rect() == half(arena[k].spec_rect())
    &&& steps_to(arena, k, v)
}

/// The key of the canonical empty node of `w` by `h` cells.
pub open spec fn dims_key(w: nat, h: nat) -> int {
    (w * 0x1_0000_0000_0000_0000 + h) as int
}

/// `n` rounded up to an even number.
pub open spec fn round_even(n: nat) -> nat {
    if n % 2 == 0 {
        n
    } else {
        n + 1
    }
}

/// `s` with the cell at the Z-order index of each of `cells` set.
pub open spec fn with_cells_set(s: Seq<bool>, cells: Seq<(usize, usize)>) -> Seq<bool>
    decreases cells.len(),
{
    if cells.len() == 0 {
        s
    } else {
        with_cells_set(s, cells.drop_last()).update(
            morton(cells.last().0 as nat, cells.last().1 as nat) as int,
            true,
        )
    }
}

/// The cell at `(row, col)` of node `i`, found as `get_cell` finds it: through
/// the quadrant that holds it, down to a leaf, whose buffer is read at
/// `row * width + col`.
pub open spec fn cell_lookup(arena: Seq<Node>, i: int, row: nat, col: nat) -> Option<bool>
    decreases i,
{
    if 0 <= i < arena.len() {
        let n = arena[i];
        let w = n.spec_rect().width as nat;
        let h = n.spec_rect().height as nat;
        match n.spec_children() {
            Some(c) => {
                let (pw, ph) = (w / 2, h / 2);
                if c.nw.index < i && c.ne.index < i && c.sw.index < i && c.se.index < i && pw > 0
                    && ph > 0 {
                    if row < pw {
                        if col < ph {
                            cell_lookup(arena, c.nw.index as int, row, col)
                        } else {
                            cell_lookup(arena, c.sw.index as int, row, col % ph)
                        }
                    } else if col < ph {
                        cell_lookup(arena, c.ne.index as int, row % pw, col)
                    } else {
                        cell_lookup(arena, c.se.index as int, row % pw, col % ph)
                    }
                } else {
                    None
                }
            },
            None => {
                let bits = n.spec_space().unwrap();
                if row < w && col < h && row * w + col < bits.len() {
                    Some(bits[(row * w + col) as int])
                } else {
                    None
                }
            },
        }
    } else {
        None
    }
}

/// The five cells of a glider around `(row, col)`.
pub open spec fn flyer_cells(row: usize, col: usize) -> Seq<(usize, usize)> {
    seq![
        ((row - 1) as usize, (col - 1) as usize),
        (row, col),
        (row, (col + 1) as usize),
        ((row + 1) as usize, (col - 1) as usize),
        ((row + 1) as usize, col),
    ]
}

/// The forty-eight cells of a pulsar centred on `(r, c)`.
pub open spec fn pulsar_cells(r: usize, c: usize) -> Seq<(usize, usize)> {
    seq![
        ((r - 4) as usize, (c - 6) as usize),
        ((r - 3) as usize, (c - 6) as usize),
        ((r - 2) as usize, (c - 6) as usize),
        ((r + 2) as usize, (c - 6) as usize),
        ((r + 3) as usize, (c - 6) as usize),
        ((r + 4) as usize, (c - 6) as usize),
        ((r - 6) as usize, (c - 4) as usize),
        ((r - 1) as usize, (c - 4) as usize),
        ((r + 1) as usize, (c - 4) as usize),
        ((r + 6) as usize, (c - 4) as usize),
        ((r - 6) as usize, (c - 3) as usize),
        ((r - 1) as usize, (c - 3) as usize),
        ((r + 1) as usize, (c - 3) as usize),
        ((r + 6) as usize, (c - 3) as usize),
        ((r - 6) as usize, (c - 2) as usize),
        ((r - 1) as usize, (c - 2) as usize),
        ((r + 1) as usize, (c - 2) as usize),
        ((r + 6) as usize, (c - 2) as usize),
        ((r - 4) as usize, (c - 1) as usize),
        ((r - 3) as usize, (c - 1) as usize),
        ((r - 2) as usize, (c - 1) as usize),
        ((r + 2) as usize, (c - 1) as usize),
        ((r + 3) as usize, (c - 1) as usize),
        ((r + 4) as usize, (c - 1) as usize),
        ((r - 4) as usize, (c + 1) as usize),
        ((r - 3) as usize, (c + 1) as usize),
        ((r - 2) as usize, (c + 1) as usize),
        ((r + 2) as usize, (c + 1) as usize),
        ((r + 3) as usize, (c + 1) as usize),
        ((r + 4) as usize, (c + 1) as usize),
        ((r - 6) as usize, (c + 2) as usize),
        ((r - 1) as usize, (c + 2) as usize),
        ((r + 1) as usize, (c + 2) as usize),
        ((r + 6) as usize, (c + 2) as usize),
        ((r - 6) as usize, (c + 3) as usize),
        ((r - 1) as usize, (c + 3) as usize),
        ((r + 1) as usize, (c + 3) as usize),
        ((r + 6) as usize, (c + 3) as usize),
        ((r - 6) as usize, (c + 4) as usize),
        ((r - 1) as usize, (c + 4) as usize),
        ((r + 1) as usize, (c + 4) as usize),
        ((r + 6) as usize, (c + 4) as usize),
        ((r - 4) as usize, (c + 6) as usize),
        ((r - 3) as usize, (c + 6) as usize),
        ((r - 2) as usize, (c + 6) as usize),
        ((r + 2) as usize, (c + 6) as usize),
        ((r + 3) as usize, (c + 6) as usize),
        ((r + 4) as usize, (c + 6) as usize),
    ]
}

/// Life's rule: a cell is alive next if three neighbours are, or if it is
/// and two are.
pub open spec fn life_rule(alive: bool, count: nat) -> bool {
    count == 3 || (count == 2 && alive)
}

/// 1 if the cell at `(x, y)` of the Z-ordered block `s` is alive, else 0.
pub open spec fn bit_at(s: Seq<bool>, x: int, y: int) -> nat {
    if s[morton(x as nat, y as nat) as int] {
        1
    } else {
        0
    }
}

/// The live neighbours of `(x, y)` in the Z-ordered block `s`.
pub open spec fn neighbor_count(s: Seq<bool>, x: int, y: int) -> nat {
    bit_at(s, x - 1, y - 1) + bit_at(s, x - 1, y) + bit_at(s, x - 1, y + 1) + bit_at(s, x, y - 1)
        + bit_at(s, x, y + 1) + bit_at(s, x + 1, y - 1) + bit_at(s, x + 1, y) + bit_at(
        s,
        x + 1,
        y + 1,
    )
}

/// The centre half of the Z-ordered square block `s` of side `side`, one
/// generation on, in Z-order.
pub open spec fn center_step(s: Seq<bool>, side: nat) -> Seq<bool> {
    let q = side / 4;
    Seq::new(
        (side / 2) * (side / 2),
        |i: int|
            life_rule(
                s[morton(unmorton(i as nat).0 + q, unmorton(i as nat).1 + q) as int],
                neighbor_count(s, (unmorton(i as nat).0 + q) as int, (unmorton(i as nat).1 + q) as int),
            ),
    )
}

/// The cell at column `x`, row `y` of node `i`: its bit at the Z-order index.
pub open spec fn cell(arena: Seq<Node>, i: int, x: int, y: int) -> bool {
    flat(arena, i)[morton(x as nat, y as nat) as int]
}

/// The live neighbours of the cell `(x, y)` of node `i`.
pub open spec fn neighbors(arena: Seq<Node>, i: int, x: int, y: int) -> nat {
    neighbor_count(flat(arena, i), x, y)
}

/// The cell `(x, y)` of node `i`, one generation on.
pub open spec fn next_cell(arena: Seq<Node>, i: int, x: int, y: int) -> bool {
    life_rule(cell(arena, i, x, y), neighbors(arena, i, x, y))
}

/// Node `v` is node `k`'s centre half, one generation on.
pub open spec fn steps_to(arena: Seq<Node>, k: int, v: int) -> bool {
    let s = arena[k].spec_rect().width as int;
    forall|x: int, y: int|
        0 <= x < s / 2 && 0 <= y < s / 2 ==> #[trigger] cell(arena, v, x, y) == next_cell(
            arena,
            k,
            x + s / 4,
            y + s / 4,
        )
}

/// Every node up to `i` is consistent.
pub open spec fn consistent_upto(arena: Seq<Node>, i: int) -> bool {
    forall|j: int| 0 <= j <= i ==> #[trigger] node_ok(arena, j)
}

/// Node `i` is a square block whose side is `4 * 2^level`, in a consistent
/// arena.
pub open spec fn block_at(arena: Seq<Node>, i: int) -> bool {
    &&& 0 <= i < arena.len()
    &&& consistent_upto(arena, i)
    &&& is_block(arena[i].spec_rect(), arena[i].spec_level())
}

pub(crate) proof fn lemma_block_side(arena: Seq<Node>, i: int)
    requires
        block_at(arena, i),
        arena[i].spec_level() >= 1,
    ensures
        arena[i].spec_rect().width == pow2(arena[i].spec_level() + 2),
        half(arena[i].spec_rect()).width == pow2(arena[i].spec_level() + 1),
        arena[i].spec_rect().width == 2 * pow2(arena[i].spec_level() + 1),
        pow2(arena[i].spec_level() + 1) >= 4,
{
    let l = arena[i].spec_level();
    vstd::arithmetic::power2::lemma_pow2_unfold(l + 2);
    vstd::arithmetic::power2::lemma_pow2_unfold(l + 1);
    vstd::arithmetic::power2::lemma_pow2_unfold(l);
    vstd::arithmetic::power2::lemma_pow2_pos((l - 1) as nat);
}

/// The Z-order indices of a point and of its shifts into the other three
/// quadrants of a square of side `2h`.
pub(crate) proof fn lemma_shifted_indices(x: int, y: int, k: nat)
    requires
        0 <= x < pow2(k),
        0 <= y < pow2(k),
    ensures
        ({
            let h = pow2(k) as int;
            let m = morton(x as nat, y as nat) as int;
            &&& 0 <= m < h * h
            &&& morton((x + h) as nat, y as nat) == h * h + m
            &&& morton(x as nat, (y + h) as nat) == 2 * (h * h) + m
            &&& morton((x + h) as nat, (y + h) as nat) == 3 * (h * h) + m
        }),
{
    let h = pow2(k) as int;
    crate::universe::morton::lemma_morton_quadrant(x as nat, y as nat, k);
    crate::universe::morton::lemma_morton_quadrant((x + h) as nat, y as nat, k);
    crate::universe::morton::lemma_morton_quadrant(x as nat, (y + h) as nat, k);
    crate::universe::morton::lemma_morton_quadrant((x + h) as nat, (y + h) as nat, k);
    vstd::arithmetic::div_mod::lemma_fundamental_div_mod_converse(x, h, 0, x);
    vstd::arithmetic::div_mod::lemma_fundamental_div_mod_converse(y, h, 0, y);
    vstd::arithmetic::div_mod::lemma_fundamental_div_mod_converse(x + h, h, 1, x);
    vstd::arithmetic::div_mod::lemma_fundamental_div_mod_converse(y + h, h, 1, y);
}

/// The children of a block are blocks, half its side, in the same arena.
#[verifier::spinoff_prover]
pub(crate) proof fn lemma_children_blocks(arena: Seq<Node>, i: int)
    requires
        block_at(arena, i),
        arena[i].spec_level() >= 1,
    ensures
        ({
            let c = arena[i].spec_children().unwrap();
            let h = half(arena[i].spec_rect()).width as int;
            &&& arena[i].spec_children() is Some
            &&& block_at(arena, c.nw.index as int)
            &&& block_at(arena, c.ne.index as int)
            &&& block_at(arena, c.sw.index as int)
            &&& block_at(arena, c.se.index as int)
            &&& h == pow2(arena[i].spec_level() + 1)
            &&& h >= 4
            &&& arena[i].spec_rect().width == 2 * h
            &&& flat(arena, i) == flat(arena, c.nw.index as int) + flat(arena, c.ne.index as int)
                + flat(arena, c.sw.index as int) + flat(arena, c.se.index as int)
            &&& flat(arena, c.nw.index as int).len() == h * h
            &&& flat(arena, c.ne.index as int).len() == h * h
            &&& flat(arena, c.sw.index as int).len() == h * h
            &&& flat(arena, c.se.index as int).len() == h * h
        }),
{
    let l = arena[i].spec_level();
    lemma_block_side(arena, i);
    assert(node_ok(arena, i));
    let c = arena[i].spec_children().unwrap();
    let (a, b, d, e) = (c.nw.index as int, c.ne.index as int, c.sw.index as int, c.se.index as int);
    assert(node_ok(arena, a) && node_ok(arena, b) && node_ok(arena, d) && node_ok(arena, e));
    assert forall|j: int| 0 <= j <= a implies #[trigger] node_ok(arena, j) by {}
    assert forall|j: int| 0 <= j <= b implies #[trigger] node_ok(arena, j) by {}
    assert forall|j: int| 0 <= j <= d implies #[trigger] node_ok(arena, j) by {}
    assert forall|j: int| 0 <= j <= e implies #[trigger] node_ok(arena, j) by {}
    lemma_flat_shape(arena, a);
    lemma_flat_shape(arena, b);
    lemma_flat_shape(arena, d);
    lemma_flat_shape(arena, e);
    vstd::arithmetic::power2::lemma_pow2_unfold(l);
    vstd::arithmetic::power2::lemma_pow2_unfold(l + 1);
}

/// The cells of a block's quadrants are its own cells, shifted by the
/// quadrant's corner.
#[verifier::spinoff_prover]
pub(crate) proof fn lemma_descend(arena: Seq<Node>, i: int)
    requires
        block_at(arena, i),
        arena[i].spec_level() >= 1,
    ensures
        ({
            let c = arena[i].spec_children().unwrap();
            let h = half(arena[i].spec_rect()).width as int;
            &&& arena[i].spec_children() is Some
            &&& block_at(arena, c.nw.index as int)
            &&& block_at(arena, c.ne.index as int)
            &&& block_at(arena, c.sw.index as int)
            &&& block_at(arena, c.se.index as int)
            &&& h >= 4
            &&& arena[i].spec_rect().width == 2 * h
            &&& forall|x: int, y: int|
                0 <= x < h && 0 <= y < h ==> #[trigger] cell(arena, c.nw.index as int, x, y) == cell(
                    arena,
                    i,
                    x,
                    y,
                )
            &&& forall|x: int, y: int|
                0 <= x < h && 0 <= y < h ==> #[trigger] cell(arena, c.ne.index as int, x, y) == cell(
                    arena,
                    i,
                    x + h,
                    y,
                )
            &&& forall|x: int, y: int|
                0 <= x < h && 0 <= y < h ==> #[trigger] cell(arena, c.sw.index as int, x, y) == cell(
                    arena,
                    i,
                    x,
                    y + h,
                )
            &&& forall|x: int, y: int|
                0 <= x < h && 0 <= y < h ==> #[trigger] cell(arena, c.se.index as int, x, y) == cell(
                    arena,
                    i,
                    x + h,
                    y + h,
                )
        }),
{
    lemma_children_blocks(arena, i);
    let l = arena[i].spec_level();
    let c = arena[i].spec_children().unwrap();
    let h = pow2(l + 1) as int;
    let (a, b, d, e) = (c.nw.index as int, c.ne.index as int, c.sw.index as int, c.se.index as int);
    let fa = flat(arena, a);
    let fb = flat(arena, b);
    let fd = flat(arena, d);
    let fe = flat(arena, e);
    let hh = h * h;
    let all = fa + fb + fd + fe;
    assert forall|x: int, y: int| 0 <= x < h && 0 <= y < h implies #[trigger] cell(arena, a, x, y)
        == cell(arena, i, x, y) by {
        lemma_shifted_indices(x, y, l + 1);
        assert(all[morton(x as nat, y as nat) as int] == fa[morton(x as nat, y as nat) as int]);
    }
    assert forall|x: int, y: int| 0 <= x < h && 0 <= y < h implies #[trigger] cell(arena, b, x, y)
        == cell(arena, i, x + h, y) by {
        lemma_shifted_indices(x, y, l + 1);
        let m = morton(x as nat, y as nat) as int;
        assert(all[hh + m] == fb[m]);
    }
    assert forall|x: int, y: int| 0 <= x < h && 0 <= y < h implies #[trigger] cell(arena, d, x, y)
        == cell(arena, i, x, y + h) by {
        lemma_shifted_indices(x, y, l + 1);
        let m = morton(x as nat, y as nat) as int;
        assert(all[2 * hh + m] == fd[m]);
    }
    assert forall|x: int, y: int| 0 <= x < h && 0 <= y < h implies #[trigger] cell(arena, e, x, y)
        == cell(arena, i, x + h, y + h) by {
        lemma_shifted_indices(x, y, l + 1);
        let m = morton(x as nat, y as nat) as int;
        assert(all[3 * hh + m] == fe[m]);
    }
}

/// A block whose quadrants show a picture `f`, each from its own corner,
/// shows `f` as a whole.
pub(crate) proof fn lemma_assemble(arena: Seq<Node>, i: int, f: spec_fn(int, int) -> bool, ox: int, oy: int)
    requires
        block_at(arena, i),
        arena[i].spec_level() >= 1,
        ({
            let c = arena[i].spec_children().unwrap();
            let h = half(arena[i].spec_rect()).width as int;
            forall|x: int, y: int|
                0 <= x < h && 0 <= y < h ==> {
                    &&& #[trigger] cell(arena, c.nw.index as int, x, y) == f(x + ox, y + oy)
                    &&& cell(arena, c.ne.index as int, x, y) == f(x + h + ox, y + oy)
                    &&& cell(arena, c.sw.index as int, x, y) == f(x + ox, y + h + oy)
                    &&& cell(arena, c.se.index as int, x, y) == f(x + h + ox, y + h + oy)
                }
        }),
    ensures
        forall|x: int, y: int|
            0 <= x < arena[i].spec_rect().width && 0 <= y < arena[i].spec_rect().width ==> #[trigger] cell(
                arena,
                i,
                x,
                y,
            ) == f(x + ox, y + oy),
{
    lemma_descend(arena, i);
    let c = arena[i].spec_children().unwrap();
    let h = half(arena[i].spec_rect()).width as int;
    assert forall|x: int, y: int|
        0 <= x < arena[i].spec_rect().width && 0 <= y < arena[i].spec_rect().width implies #[trigger] cell(
            arena,
            i,
            x,
            y,
        ) == f(x + ox, y + oy) by {
        let (xl, yl) = (if x < h { x } else { x - h }, if y < h { y } else { y - h });
        assert(cell(arena, c.nw.index as int, xl, yl) == f(xl + ox, yl + oy));
    }
}

/// Appending nodes leaves the cells of the earlier ones as they were.
pub(crate) proof fn lemma_cells_frame(a: Seq<Node>, b: Seq<Node>, i: int)
    requires
        a.is_prefix_of(b),
        0 <= i < a.len(),
    ensures
        forall|x: int, y: int| #[trigger] cell(b, i, x, y) == cell(a, i, x, y),
        block_at(a, i) ==> block_at(b, i),
        b[i] == a[i],
{
    lemma_flat_frame(a, b, i);
    assert(b[i] == a[i]);
    if block_at(a, i) {
        assert forall|j: int| 0 <= j <= i implies #[trigger] node_ok(b, j) by {
            lemma_node_ok_frame(a, b, j);
        }
    }
}

/// The grandchild of `i` in quadrant `q` of its child in quadrant `p`
/// (0 north-west, 1 north-east, 2 south-west, 3 south-east).
pub open spec fn grandchild(arena: Seq<Node>, i: int, p: int, q: int) -> int {
    quadrant(arena, quadrant(arena, i, p), q)
}

/// The child of `i` in quadrant `q`.
pub open spec fn quadrant(arena: Seq<Node>, i: int, q: int) -> int {
    let c = arena[i].spec_children().unwrap();
    if q == 0 {
        c.nw.index as int
    } else if q == 1 {
        c.ne.index as int
    } else if q == 2 {
        c.sw.index as int
    } else {
        c.se.index as int
    }
}

/// The cells of quadrant `q` of block `i` are those of `i` from the
/// quadrant's corner.
pub(crate) proof fn lemma_quadrant_cells(arena: Seq<Node>, i: int, q: int)
    requires
        block_at(arena, i),
        arena[i].spec_level() >= 1,
        0 <= q < 4,
    ensures
        block_at(arena, quadrant(arena, i, q)),
        arena[quadrant(arena, i, q)].spec_level() + 1 == arena[i].spec_level(),
        arena[quadrant(arena, i, q)].spec_rect() == half(arena[i].spec_rect()),
        ({
            let h = half(arena[i].spec_rect()).width as int;
            let (ox, oy) = (if q % 2 == 1 { h } else { 0 }, if q >= 2 { h } else { 0 });
            forall|x: int, y: int|
                0 <= x < h && 0 <= y < h ==> #[trigger] cell(arena, quadrant(arena, i, q), x, y)
                    == cell(arena, i, x + ox, y + oy)
        }),
{
    lemma_descend(arena, i);
    assert(node_ok(arena, i));
    let c = arena[i].spec_children().unwrap();
    assert(node_ok(arena, quadrant(arena, i, q)));
}

/// The column offset of quadrant `q` in a block whose quadrants have side `h`.
pub open spec fn qx(q: int, h: int) -> int {
    if q % 2 == 1 {
        h
    } else {
        0
    }
}

/// The row offset of quadrant `q` in a block whose quadrants have side `h`.
pub open spec fn qy(q: int, h: int) -> int {
    if q >= 2 {
        h
    } else {
        0
    }
}

/// The cells of a grandchild of block `i` are those of `i` from the
/// grandchild's corner.
#[verifier::spinoff_prover]
pub(crate) proof fn lemma_grandchild_cells(arena: Seq<Node>, i: int, p: int, q: int)
    requires
        block_at(arena, i),
        arena[i].spec_level() >= 2,
        0 <= p < 4,
        0 <= q < 4,
    ensures
        block_at(arena, grandchild(arena, i, p, q)),
        arena[grandchild(arena, i, p, q)].spec_level() + 2 == arena[i].spec_level(),
        arena[grandchild(arena, i, p, q)].spec_rect() == half(half(arena[i].spec_rect())),
        ({
            let s = arena[i].spec_rect().width as int;
            let (ox, oy) = (qx(p, s / 2) + qx(q, s / 4), qy(p, s / 2) + qy(q, s / 4));
            forall|x: int, y: int|
                0 <= x < s / 4 && 0 <= y < s / 4 ==> #[trigger] cell(arena, grandchild(arena, i, p, q), x, y)
                    == cell(arena, i, x + ox, y + oy)
        }),
{
    let c = quadrant(arena, i, p);
    lemma_quadrant_cells(arena, i, p);
    lemma_quadrant_cells(arena, c, q);
    lemma_block_side(arena, i);
    lemma_block_side(arena, c);
    let s = arena[i].spec_rect().width as int;
    assert(half(arena[i].spec_rect()).width == s / 2);
    assert(half(arena[c].spec_rect()).width == s / 4);
    assert forall|x: int, y: int| 0 <= x < s / 4 && 0 <= y < s / 4 implies #[trigger] cell(
        arena,
        grandchild(arena, i, p, q),
        x,
        y,
    ) == cell(arena, i, x + qx(p, s / 2) + qx(q, s / 4), y + qy(p, s / 2) + qy(q, s / 4)) by {
        assert(cell(arena, grandchild(arena, i, p, q), x, y) == cell(arena, c, x + qx(q, s / 4), y + qy(q, s / 4)));
        assert(cell(arena, c, x + qx(q, s / 4), y + qy(q, s / 4)) == cell(
            arena,
            i,
            x + qx(q, s / 4) + qx(p, s / 2),
            y + qy(q, s / 4) + qy(p, s / 2),
        ));
    }
}

/// The children of node `r` are the nodes `g`, in the order north-west,
/// north-east, south-west, south-east.
pub open spec fn children_are(arena: Seq<Node>, r: int, g: (int, int, int, int)) -> bool {
    &&& arena[r].spec_children() is Some
    &&& arena[r].spec_children().unwrap().nw.index == g.0
    &&& arena[r].spec_children().unwrap().ne.index == g.1
    &&& arena[r].spec_children().unwrap().sw.index == g.2
    &&& arena[r].spec_children().unwrap().se.index == g.3
}

/// The assembled node shows `f` from `(ox, oy)` when each of its quadrants,
/// all older nodes, does.
pub(crate) proof fn lemma_assemble_old(
    a0: Seq<Node>,
    a1: Seq<Node>,
    r: int,
    g: (int, int, int, int),
    f: spec_fn(int, int) -> bool,
    ox: int,
    oy: int,
)
    requires
        a0.is_prefix_of(a1),
        block_at(a1, r),
        a1[r].spec_level() >= 1,
        children_are(a1, r, g),
        0 <= g.0 < a0.len() && 0 <= g.1 < a0.len() && 0 <= g.2 < a0.len() && 0 <= g.3 < a0.len(),
        ({
            let h = half(a1[r].spec_rect()).width as int;
            forall|x: int, y: int|
                0 <= x < h && 0 <= y < h ==> {
                    &&& #[trigger] cell(a0, g.0, x, y) == f(x + ox, y + oy)
                    &&& cell(a0, g.1, x, y) == f(x + h + ox, y + oy)
                    &&& cell(a0, g.2, x, y) == f(x + ox, y + h + oy)
                    &&& cell(a0, g.3, x, y) == f(x + h + ox, y + h + oy)
                }
        }),
    ensures
        forall|x: int, y: int|
            0 <= x < a1[r].spec_rect().width && 0 <= y < a1[r].spec_rect().width ==> #[trigger] cell(
                a1,
                r,
                x,
                y,
            ) == f(x + ox, y + oy),
{
    lemma_cells_frame(a0, a1, g.0);
    lemma_cells_frame(a0, a1, g.1);
    lemma_cells_frame(a0, a1, g.2);
    lemma_cells_frame(a0, a1, g.3);
    lemma_assemble(a1, r, f, ox, oy);
}

/// The centre half of block `p`.
#[verifier::spinoff_prover]
pub(crate) proof fn lemma_centre_cells(a0: Seq<Node>, a1: Seq<Node>, p: int, r: int)
    requires
        a0.is_prefix_of(a1),
        block_at(a0, p),
        a0[p].spec_level() >= 2,
        block_at(a1, r),
        a1[r].spec_level() >= 1,
        a1[r].spec_rect() == half(a0[p].spec_rect()),
        children_are(a1, r, (grandchild(a0, p, 0, 3), grandchild(a0, p, 1, 2), grandchild(a0, p, 2, 1), grandchild(a0, p, 3, 0))),
    ensures
        ({
            let t = a0[p].spec_rect().width as int;
            forall|x: int, y: int|
                0 <= x < t / 2 && 0 <= y < t / 2 ==> #[trigger] cell(a1, r, x, y) == cell(a0, p, x + t / 4, y + t / 4)
        }),
{
    let t = a0[p].spec_rect().width as int;
    lemma_grandchild_cells(a0, p, 0, 3);
    lemma_grandchild_cells(a0, p, 1, 2);
    lemma_grandchild_cells(a0, p, 2, 1);
    lemma_grandchild_cells(a0, p, 3, 0);
    lemma_block_side(a0, p);
    lemma_block_side(a1, r);
    let f = |x: int, y: int| cell(a0, p, x, y);
    let g = (grandchild(a0, p, 0, 3), grandchild(a0, p, 1, 2), grandchild(a0, p, 2, 1), grandchild(a0, p, 3, 0));
    assert(half(a1[r].spec_rect()).width == t / 4);
    lemma_assemble_old(a0, a1, r, g, f, t / 4, t / 4);
}

/// The middle of the west block `w` and the east block `e`.
#[verifier::spinoff_prover]
pub(crate) proof fn lemma_horizontal_cells(a0: Seq<Node>, a1: Seq<Node>, w: int, e: int, r: int)
    requires
        a0.is_prefix_of(a1),
        block_at(a0, w),
        block_at(a0, e),
        a0[w].spec_level() >= 2,
        a0[e].spec_rect() == a0[w].spec_rect(),
        a0[e].spec_level() == a0[w].spec_level(),
        block_at(a1, r),
        a1[r].spec_level() >= 1,
        a1[r].spec_rect() == half(a0[w].spec_rect()),
        children_are(a1, r, (grandchild(a0, w, 1, 3), grandchild(a0, e, 0, 2), grandchild(a0, w, 3, 1), grandchild(a0, e, 2, 0))),
    ensures
        ({
            let t = a0[w].spec_rect().width as int;
            forall|x: int, y: int|
                0 <= x < t / 2 && 0 <= y < t / 2 ==> #[trigger] cell(a1, r, x, y) == (if x + 3 * t / 4 < t {
                    cell(a0, w, x + 3 * t / 4, y + t / 4)
                } else {
                    cell(a0, e, x + 3 * t / 4 - t, y + t / 4)
                })
        }),
{
    let t = a0[w].spec_rect().width as int;
    lemma_grandchild_cells(a0, w, 1, 3);
    lemma_grandchild_cells(a0, e, 0, 2);
    lemma_grandchild_cells(a0, w, 3, 1);
    lemma_grandchild_cells(a0, e, 2, 0);
    lemma_block_side(a0, w);
    lemma_block_side(a1, r);
    let f = |x: int, y: int| if x < t { cell(a0, w, x, y) } else { cell(a0, e, x - t, y) };
    let g = (grandchild(a0, w, 1, 3), grandchild(a0, e, 0, 2), grandchild(a0, w, 3, 1), grandchild(a0, e, 2, 0));
    assert(half(a1[r].spec_rect()).width == t / 4);
    lemma_assemble_old(a0, a1, r, g, f, 3 * t / 4, t / 4);
}

/// The middle of the north block `n` and the south block `s`.
#[verifier::spinoff_prover]
pub(crate) proof fn lemma_vertical_cells(a0: Seq<Node>, a1: Seq<Node>, n: int, s: int, r: int)
    requires
        a0.is_prefix_of(a1),
        block_at(a0, n),
        block_at(a0, s),
        a0[n].spec_level() >= 2,
        a0[s].spec_rect() == a0[n].spec_rect(),
        a0[s].spec_level() == a0[n].spec_level(),
        block_at(a1, r),
        a1[r].spec_level() >= 1,
        a1[r].spec_rect() == half(a0[n].spec_rect()),
        children_are(a1, r, (grandchild(a0, n, 2, 3), grandchild(a0, n, 3, 2), grandchild(a0, s, 0, 1), grandchild(a0, s, 1, 0))),
    ensures
        ({
            let t = a0[n].spec_rect().width as int;
            forall|x: int, y: int|
                0 <= x < t / 2 && 0 <= y < t / 2 ==> #[trigger] cell(a1, r, x, y) == (if y + 3 * t / 4 < t {
                    cell(a0, n, x + t / 4, y + 3 * t / 4)
                } else {
                    cell(a0, s, x + t / 4, y + 3 * t / 4 - t)
                })
        }),
{
    let t = a0[n].spec_rect().width as int;
    lemma_grandchild_cells(a0, n, 2, 3);
    lemma_grandchild_cells(a0, n, 3, 2);
    lemma_grandchild_cells(a0, s, 0, 1);
    lemma_grandchild_cells(a0, s, 1, 0);
    lemma_block_side(a0, n);
    lemma_block_side(a1, r);
    let f = |x: int, y: int| if y < t { cell(a0, n, x, y) } else { cell(a0, s, x, y - t) };
    let g = (grandchild(a0, n, 2, 3), grandchild(a0, n, 3, 2), grandchild(a0, s, 0, 1), grandchild(a0, s, 1, 0));
    assert(half(a1[r].spec_rect()).width == t / 4);
    lemma_assemble_old(a0, a1, r, g, f, t / 4, 3 * t / 4);
}

/// The centre quarter of block `p`.
#[verifier::spinoff_prover]
pub(crate) proof fn lemma_centre_quarter_cells(a0: Seq<Node>, a1: Seq<Node>, p: int, r: int)
    requires
        a0.is_prefix_of(a1),
        block_at(a0, p),
        a0[p].spec_level() >= 3,
        block_at(a1, r),
        a1[r].spec_level() >= 1,
        a1[r].spec_rect() == half(half(a0[p].spec_rect())),
        children_are(
            a1,
            r,
            (
                quadrant(a0, grandchild(a0, p, 0, 3), 3),
                quadrant(a0, grandchild(a0, p, 1, 2), 2),
                quadrant(a0, grandchild(a0, p, 2, 1), 1),
                quadrant(a0, grandchild(a0, p, 3, 0), 0),
            ),
        ),
    ensures
        ({
            let t = a0[p].spec_rect().width as int;
            forall|x: int, y: int|
                0 <= x < t / 4 && 0 <= y < t / 4 ==> #[trigger] cell(a1, r, x, y) == cell(
                    a0,
                    p,
                    x + 3 * t / 8,
                    y + 3 * t / 8,
                )
        }),
{
    let t = a0[p].spec_rect().width as int;
    let (g0, g1, g2, g3) = (
        grandchild(a0, p, 0, 3),
        grandchild(a0, p, 1, 2),
        grandchild(a0, p, 2, 1),
        grandchild(a0, p, 3, 0),
    );
    lemma_grandchild_cells(a0, p, 0, 3);
    lemma_grandchild_cells(a0, p, 1, 2);
    lemma_grandchild_cells(a0, p, 2, 1);
    lemma_grandchild_cells(a0, p, 3, 0);
    lemma_quadrant_cells(a0, g0, 3);
    lemma_quadrant_cells(a0, g1, 2);
    lemma_quadrant_cells(a0, g2, 1);
    lemma_quadrant_cells(a0, g3, 0);
    lemma_block_side(a0, p);
    lemma_block_side(a0, g0);
    lemma_block_side(a1, r);
    let f = |x: int, y: int| cell(a0, p, x, y);
    let g = (quadrant(a0, g0, 3), quadrant(a0, g1, 2), quadrant(a0, g2, 1), quadrant(a0, g3, 0));
    assert(half(a1[r].spec_rect()).width == t / 8);
    assert(half(a0[g0].spec_rect()).width == t / 8);
    lemma_assemble_old(a0, a1, r, g, f, 3 * t / 8, 3 * t / 8);
}

/// Appending nodes keeps every successor relation among earlier nodes.
pub(crate) proof fn lemma_steps_to_frame(a: Seq<Node>, b: Seq<Node>, k: int, v: int)
    requires
        a.is_prefix_of(b),
        0 <= k < a.len(),
        0 <= v < a.len(),
        steps_to(a, k, v),
    ensures
        steps_to(b, k, v),
{
    lemma_flat_frame(a, b, k);
    lemma_flat_frame(a, b, v);
    assert(a[k] == b[k]);
    let s = a[k].spec_rect().width as int;
    assert forall|x: int, y: int| 0 <= x < s / 2 && 0 <= y < s / 2 implies #[trigger] cell(b, v, x, y)
        == next_cell(b, k, x + s / 4, y + s / 4) by {
        assert(cell(a, v, x, y) == next_cell(a, k, x + s / 4, y + s / 4));
    }
}

/// Cells with the same neighbourhood have the same next state.
pub(crate) proof fn lemma_window(a: Seq<Node>, i: int, b: Seq<Node>, j: int, x: int, y: int, ox: int, oy: int)
    requires
        x >= 1,
        y >= 1,
        x + ox >= 1,
        y + oy >= 1,
        forall|u: int, v: int|
            x - 1 <= u <= x + 1 && y - 1 <= v <= y + 1 ==> #[trigger] cell(a, i, u, v) == cell(
                b,
                j,
                u + ox,
                v + oy,
            ),
    ensures
        next_cell(a, i, x, y) == next_cell(b, j, x + ox, y + oy),
{
    assert(cell(a, i, x - 1, y - 1) == cell(b, j, x + ox - 1, y + oy - 1));
    assert(cell(a, i, x - 1, y) == cell(b, j, x + ox - 1, y + oy));
    assert(cell(a, i, x - 1, y + 1) == cell(b, j, x + ox - 1, y + oy + 1));
    assert(cell(a, i, x, y - 1) == cell(b, j, x + ox, y + oy - 1));
    assert(cell(a, i, x, y) == cell(b, j, x + ox, y + oy));
    assert(cell(a, i, x, y + 1) == cell(b, j, x + ox, y + oy + 1));
    assert(cell(a, i, x + 1, y - 1) == cell(b, j, x + ox + 1, y + oy - 1));
    assert(cell(a, i, x + 1, y) == cell(b, j, x + ox + 1, y + oy));
    assert(cell(a, i, x + 1, y + 1) == cell(b, j, x + ox + 1, y + oy + 1));
}

/// Clearing a set bit takes one from the count.
pub(crate) proof fn lemma_count_clear(s: Seq<bool>, i: int)
    requires
        0 <= i < s.len(),
    ensures
        count_true(s) == count_true(s.update(i, false)) + if s[i] {
            1nat
        } else {
            0nat
        },
    decreases s.len(),
{
    let t = s.update(i, false);
    if i == s.len() - 1 {
        assert(t.drop_last() =~= s.drop_last());
    } else {
        lemma_count_clear(s.drop_last(), i);
        assert(t.drop_last() =~= s.drop_last().update(i, false));
    }
}

/// The number of set bits of `s` at the positions `l`.
pub open spec fn count_at(s: Seq<bool>, l: Seq<int>) -> nat
    decreases l.len(),
{
    if l.len() == 0 {
        0
    } else {
        count_at(s, l.drop_last()) + if s[l.last()] {
            1nat
        } else {
            0nat
        }
    }
}

/// A buffer counts at least the set bits at any distinct positions.
pub(crate) proof fn lemma_count_at(s: Seq<bool>, l: Seq<int>)
    requires
        forall|k: int| 0 <= k < l.len() ==> 0 <= #[trigger] l[k] < s.len(),
        forall|k: int, m: int| 0 <= k < m < l.len() ==> #[trigger] l[k] != #[trigger] l[m],
    ensures
        count_at(s, l) <= count_true(s),
    decreases l.len(),
{
    if l.len() > 0 {
        let i = l.last();
        let t = s.update(i, false);
        lemma_count_clear(s, i);
        let r = l.drop_last();
        assert forall|k: int| 0 <= k < r.len() implies t[r[k]] == s[r[k]] by {
            assert(l[k] != l[l.len() - 1]);
        }
        assert(count_at(t, r) == count_at(s, r)) by {
            lemma_count_at_same(s, t, r);
        }
        lemma_count_at(t, r);
    }
}

pub(crate) proof fn lemma_count_at_same(s: Seq<bool>, t: Seq<bool>, l: Seq<int>)
    requires
        forall|k: int| 0 <= k < l.len() ==> s[#[trigger] l[k]] == t[l[k]],
    ensures
        count_at(s, l) == count_at(t, l),
    decreases l.len(),
{
    if l.len() > 0 {
        let r = l.drop_last();
        assert forall|k: int| 0 <= k < r.len() implies s[#[trigger] r[k]] == t[r[k]] by {
            assert(r[k] == l[k]);
        }
        lemma_count_at_same(s, t, r);
    }
}

/// With fewer than three live cells in a block, no cell of it lives on.
#[verifier::spinoff_prover]
pub(crate) proof fn lemma_few_live(s: Seq<bool>, x: int, y: int, side: nat, k: nat)
    requires
        side == pow2(k),
        s.len() == side * side,
        count_true(s) < 3,
        1 <= x < side - 1,
        1 <= y < side - 1,
    ensures
        !life_rule(s[morton(x as nat, y as nat) as int], neighbor_count(s, x, y)),
{
    let m = |dx: int, dy: int| morton((x + dx) as nat, (y + dy) as nat) as int;
    let l = seq![m(-1, -1), m(-1, 0), m(-1, 1), m(0, -1), m(0, 1), m(1, -1), m(1, 0), m(1, 1), m(0, 0)];
    assert forall|i: int| 0 <= i < l.len() implies 0 <= #[trigger] l[i] < s.len() by {
        let (dx, dy) = if i < 3 { (-1, i - 1) } else if i == 3 { (0, -1) } else if i == 4 { (0, 1) } else if i < 8 { (1, i - 6) } else { (0, 0) };
        assert(l[i] == m(dx, dy));
        lemma_cell_index_bound((x + dx) as nat, (y + dy) as nat, k);
    }
    assert forall|i: int, j: int| 0 <= i < j < l.len() implies #[trigger] l[i] != #[trigger] l[j] by {
        let p = |q: int| if q < 3 { (-1int, q - 1) } else if q == 3 { (0int, -1int) } else if q == 4 { (0int, 1int) } else if q < 8 { (1int, q - 6) } else { (0int, 0int) };
        assert(l[i] == m(p(i).0, p(i).1));
        assert(l[j] == m(p(j).0, p(j).1));
        crate::universe::morton::lemma_unmorton_morton((x + p(i).0) as nat, (y + p(i).1) as nat);
        crate::universe::morton::lemma_unmorton_morton((x + p(j).0) as nat, (y + p(j).1) as nat);
    }
    lemma_count_at(s, l);
    reveal_with_fuel(count_at, 10);
}

/// Inside a square of side `2^k`, Z-order indices stay below `4^k`.
pub(crate) proof fn lemma_cell_index_bound(x: nat, y: nat, k: nat)
    requires
        x < pow2(k),
        y < pow2(k),
    ensures
        morton(x, y) < pow2(k) * pow2(k),
{
    if k == 0 {
        vstd::arithmetic::power2::lemma2_to64();
        assert(x == 0 && y == 0);
        assert(morton(0, 0) == 0);
    } else {
        vstd::arithmetic::power2::lemma_pow2_unfold(k);
        let h = pow2((k - 1) as nat);
        crate::universe::morton::lemma_morton_quadrant(x, y, (k - 1) as nat);
        let qx = x / h;
        let qy = y / h;
        vstd::arithmetic::div_mod::lemma_fundamental_div_mod(x as int, h as int);
        vstd::arithmetic::div_mod::lemma_fundamental_div_mod(y as int, h as int);
        vstd::arithmetic::power2::lemma_pow2_pos((k - 1) as nat);
        assert(qx < 2) by (nonlinear_arith)
            requires
                x == h * qx + x % h,
                x % h >= 0,
                x < 2 * h,
                h > 0,
        ;
        assert(qy < 2) by (nonlinear_arith)
            requires
                y == h * qy + y % h,
                y % h >= 0,
                y < 2 * h,
                h > 0,
        ;
        assert((x / h + 2 * (y / h)) <= 3);
        assert((x / h + 2 * (y / h)) * (h * h) <= 3 * (h * h)) by (nonlinear_arith)
            requires
                (x / h + 2 * (y / h)) <= 3,
        ;
        assert((2 * h) * (2 * h) == 4 * (h * h)) by (nonlinear_arith);
    }
}

/// The successor of an overlapping block that shows `id` from `(ox, oy)`
/// shows `id`'s next generation from `(ox + t / 8, oy + t / 8)`.
pub(crate) proof fn lemma_quadrant_step(a0: Seq<Node>, a5: Seq<Node>, id: int, pre: int, res: int, ox: int, oy: int, t: int)
    requires
        steps_to(a5, pre, res),
        a5[pre].spec_rect().width == t / 2,
        t >= 32,
        t % 8 == 0,
        ox >= 0,
        oy >= 0,
        forall|u: int, v: int|
            0 <= u < t / 2 && 0 <= v < t / 2 ==> #[trigger] cell(a5, pre, u, v) == cell(a0, id, u + ox, v + oy),
    ensures
        forall|x: int, y: int|
            0 <= x < t / 4 && 0 <= y < t / 4 ==> #[trigger] cell(a5, res, x, y) == next_cell(
                a0,
                id,
                x + t / 8 + ox,
                y + t / 8 + oy,
            ),
{
    assert((t / 2) / 2 == t / 4);
    assert((t / 2) / 4 == t / 8);
    assert forall|x: int, y: int| 0 <= x < t / 4 && 0 <= y < t / 4 implies #[trigger] cell(a5, res, x, y)
        == next_cell(a0, id, x + t / 8 + ox, y + t / 8 + oy) by {
        lemma_window(a5, pre, a0, id, x + t / 8, y + t / 8, ox, oy);
    }
}

/// Cells of a block with fewer than three live cells, away from its edge,
/// are dead in the next generation; and a dead block's cells are all dead.
#[verifier::spinoff_prover]
pub(crate) proof fn lemma_sparse_block(arena: Seq<Node>, i: int)
    requires
        block_at(arena, i),
        arena[i].spec_population() < 3,
    ensures
        ({
            let side = arena[i].spec_rect().width as int;
            &&& forall|x: int, y: int|
                1 <= x < side - 1 && 1 <= y < side - 1 ==> !#[trigger] next_cell(arena, i, x, y)
            &&& arena[i].spec_population() == 0 ==> forall|x: int, y: int|
                0 <= x < side && 0 <= y < side ==> !#[trigger] cell(arena, i, x, y)
        }),
{
    let l = arena[i].spec_level();
    let side = arena[i].spec_rect().width as int;
    vstd::arithmetic::power2::lemma_pow2_unfold(l + 2);
    vstd::arithmetic::power2::lemma_pow2_unfold(l + 1);
    assert(side == pow2(l + 2));
    lemma_flat_shape(arena, i);
    assert(flat(arena, i).len() == side * side);
    assert forall|x: int, y: int| 1 <= x < side - 1 && 1 <= y < side - 1 implies !#[trigger] next_cell(
        arena,
        i,
        x,
        y,
    ) by {
        lemma_few_live(flat(arena, i), x, y, side as nat, l + 2);
    }
    if arena[i].spec_population() == 0 {
        lemma_count_true_zero(flat(arena, i));
        assert forall|x: int, y: int| 0 <= x < side && 0 <= y < side implies !#[trigger] cell(arena, i, x, y) by {
            lemma_cell_index_bound(x as nat, y as nat, l + 2);
        }
    }
}

/// A block's next centre, put together from the successors of its four
/// overlapping blocks.
#[verifier::spinoff_prover]
#[verifier::rlimit(100)]
pub(crate) proof fn lemma_combine_steps(
    a0: Seq<Node>,
    a1: Seq<Node>,
    a5: Seq<Node>,
    a6: Seq<Node>,
    i: int,
    pre: (int, int, int, int),
    res: (int, int, int, int),
    r: int,
)
    requires
        a0.is_prefix_of(a1),
        a1.is_prefix_of(a5),
        a5.is_prefix_of(a6),
        block_at(a0, i),
        a0[i].spec_level() >= 3,
        block_at(a6, r),
        a6[r].spec_level() >= 1,
        a6[r].spec_rect() == half(a0[i].spec_rect()),
        children_are(a6, r, res),
        0 <= res.0 < a5.len() && 0 <= res.1 < a5.len() && 0 <= res.2 < a5.len() && 0 <= res.3 < a5.len(),
        0 <= pre.0 < a1.len() && 0 <= pre.1 < a1.len() && 0 <= pre.2 < a1.len() && 0 <= pre.3 < a1.len(),
        steps_to(a5, pre.0, res.0),
        steps_to(a5, pre.1, res.1),
        steps_to(a5, pre.2, res.2),
        steps_to(a5, pre.3, res.3),
        a1[pre.0].spec_rect() == half(a0[i].spec_rect()),
        a1[pre.1].spec_rect() == half(a0[i].spec_rect()),
        a1[pre.2].spec_rect() == half(a0[i].spec_rect()),
        a1[pre.3].spec_rect() == half(a0[i].spec_rect()),
        ({
            let t = a0[i].spec_rect().width as int;
            &&& forall|x: int, y: int|
                0 <= x < t / 2 && 0 <= y < t / 2 ==> #[trigger] cell(a1, pre.0, x, y) == cell(
                    a0,
                    i,
                    x + 1 * t / 8,
                    y + 1 * t / 8,
                )
            &&& forall|x: int, y: int|
                0 <= x < t / 2 && 0 <= y < t / 2 ==> #[trigger] cell(a1, pre.1, x, y) == cell(
                    a0,
                    i,
                    x + 3 * t / 8,
                    y + 1 * t / 8,
                )
            &&& forall|x: int, y: int|
                0 <= x < t / 2 && 0 <= y < t / 2 ==> #[trigger] cell(a1, pre.2, x, y) == cell(
                    a0,
                    i,
                    x + 1 * t / 8,
                    y + 3 * t / 8,
                )
            &&& forall|x: int, y: int|
                0 <= x < t / 2 && 0 <= y < t / 2 ==> #[trigger] cell(a1, pre.3, x, y) == cell(
                    a0,
                    i,
                    x + 3 * t / 8,
                    y + 3 * t / 8,
                )
        }),
    ensures
        steps_to(a6, i, r),
{
    let t = a0[i].spec_rect().width as int;
    let level = a0[i].spec_level();
    vstd::arithmetic::power2::lemma_pow2_unfold(level);
    vstd::arithmetic::power2::lemma_pow2_unfold((level - 1) as nat);
    vstd::arithmetic::power2::lemma_pow2_unfold((level - 2) as nat);
    vstd::arithmetic::power2::lemma_pow2_pos((level - 3) as nat);
    assert(t == 32 * pow2((level - 3) as nat));
    assert(t % 8 == 0);
    lemma_cells_frame(a1, a5, pre.0);
    lemma_cells_frame(a1, a5, pre.1);
    lemma_cells_frame(a1, a5, pre.2);
    lemma_cells_frame(a1, a5, pre.3);
    lemma_quadrant_step(a0, a5, i, pre.0, res.0, 1 * t / 8, 1 * t / 8, t);
    lemma_quadrant_step(a0, a5, i, pre.1, res.1, 3 * t / 8, 1 * t / 8, t);
    lemma_quadrant_step(a0, a5, i, pre.2, res.2, 1 * t / 8, 3 * t / 8, t);
    lemma_quadrant_step(a0, a5, i, pre.3, res.3, 3 * t / 8, 3 * t / 8, t);
    let g = |x: int, y: int| next_cell(a0, i, x, y);
    assert(half(a6[r].spec_rect()).width == t / 4);
    assert forall|x: int, y: int| 0 <= x < t / 4 && 0 <= y < t / 4 implies {
        &&& #[trigger] cell(a5, res.0, x, y) == g(x + t / 4, y + t / 4)
        &&& cell(a5, res.1, x, y) == g(x + t / 4 + t / 4, y + t / 4)
        &&& cell(a5, res.2, x, y) == g(x + t / 4, y + t / 4 + t / 4)
        &&& cell(a5, res.3, x, y) == g(x + t / 4 + t / 4, y + t / 4 + t / 4)
    } by {
        assert(cell(a5, res.0, x, y) == next_cell(a0, i, x + t / 8 + 1 * t / 8, y + t / 8 + 1 * t / 8));
        assert(cell(a5, res.1, x, y) == next_cell(a0, i, x + t / 8 + 3 * t / 8, y + t / 8 + 1 * t / 8));
        assert(cell(a5, res.2, x, y) == next_cell(a0, i, x + t / 8 + 1 * t / 8, y + t / 8 + 3 * t / 8));
        assert(cell(a5, res.3, x, y) == next_cell(a0, i, x + t / 8 + 3 * t / 8, y + t / 8 + 3 * t / 8));
    }
    lemma_assemble_old(a5, a6, r, res, g, t / 4, t / 4);
    assert(a0.is_prefix_of(a6));
    lemma_flat_frame(a0, a6, i);
    assert(a6[i] == a0[i]);
    assert forall|x: int, y: int| 0 <= x < t / 2 && 0 <= y < t / 2 implies #[trigger] cell(a6, r, x, y)
        == next_cell(a6, i, x + t / 4, y + t / 4) by {
        assert(cell(a6, r, x, y) == g(x + t / 4, y + t / 4));
    }
}

/// `x` reduced onto `0 .. n`.
pub open spec fn wrap(x: int, n: int) -> int {
    ((x % n) + n) % n
}

/// 1 if the cell `(x, y)` of the Z-ordered torus `c` of side `n` is alive,
/// with coordinates taken modulo `n`.
pub open spec fn torus_bit(c: Seq<bool>, n: int, x: int, y: int) -> nat {
    if c[morton(wrap(x, n) as nat, wrap(y, n) as nat) as int] {
        1
    } else {
        0
    }
}

/// The live neighbours of `(x, y)` on the torus `c` of side `n`.
pub open spec fn torus_count(c: Seq<bool>, n: int, x: int, y: int) -> nat {
    torus_bit(c, n, x - 1, y - 1) + torus_bit(c, n, x - 1, y) + torus_bit(c, n, x - 1, y + 1)
        + torus_bit(c, n, x, y - 1) + torus_bit(c, n, x, y + 1) + torus_bit(c, n, x + 1, y - 1)
        + torus_bit(c, n, x + 1, y) + torus_bit(c, n, x + 1, y + 1)
}

/// The Z-ordered torus `c` of side `n`, one generation on.
pub open spec fn torus_next(c: Seq<bool>, n: int) -> Seq<bool> {
    Seq::new(
        c.len(),
        |i: int|
            life_rule(
                c[i],
                torus_count(c, n, unmorton(i as nat).0 as int, unmorton(i as nat).1 as int),
            ),
    )
}

pub(crate) proof fn lemma_mod_shift(x: int, n: int, m: int)
    requires
        n > 0,
        0 <= x - m * n < n,
    ensures
        x % n == x - m * n,
        wrap(x, n) == x - m * n,
{
    vstd::arithmetic::div_mod::lemma_fundamental_div_mod_converse(x, n, m, x - m * n);
    vstd::arithmetic::div_mod::lemma_fundamental_div_mod_converse(x % n + n, n, 1, x % n);
}

/// The wrapped block of side `2s` built from the rolled block shows the
/// root `i` of side `s`, rolled by `s / 2` both ways, over and over.
#[verifier::spinoff_prover]
pub(crate) proof fn lemma_wrap_cells(a0: Seq<Node>, a1: Seq<Node>, a2: Seq<Node>, i: int, x: int, e: int)
    requires
        a0.is_prefix_of(a1),
        a1.is_prefix_of(a2),
        block_at(a0, i),
        a0[i].spec_level() >= 1,
        block_at(a1, x),
        a1[x].spec_level() >= 1,
        a1[x].spec_rect() == a0[i].spec_rect(),
        children_are(a1, x, (quadrant(a0, i, 3), quadrant(a0, i, 2), quadrant(a0, i, 1), quadrant(a0, i, 0))),
        block_at(a2, e),
        a2[e].spec_level() >= 1,
        half(a2[e].spec_rect()) == a0[i].spec_rect(),
        children_are(a2, e, (x, x, x, x)),
    ensures
        ({
            let s = a0[i].spec_rect().width as int;
            forall|u: int, v: int|
                0 <= u < 2 * s && 0 <= v < 2 * s ==> #[trigger] cell(a2, e, u, v) == cell(
                    a0,
                    i,
                    wrap(u + s / 2, s),
                    wrap(v + s / 2, s),
                )
        }),
{
    let s = a0[i].spec_rect().width as int;
    let h = s / 2;
    lemma_block_side(a0, i);
    lemma_quadrant_cells(a0, i, 0);
    lemma_quadrant_cells(a0, i, 1);
    lemma_quadrant_cells(a0, i, 2);
    lemma_quadrant_cells(a0, i, 3);
    assert(s == 2 * h);
    let f = |u: int, v: int| cell(a0, i, wrap(u, s), wrap(v, s));
    assert(half(a1[x].spec_rect()).width == h);
    assert forall|u: int, v: int| 0 <= u < h && 0 <= v < h implies {
        &&& #[trigger] cell(a0, quadrant(a0, i, 3), u, v) == f(u + h, v + h)
        &&& cell(a0, quadrant(a0, i, 2), u, v) == f(u + h + h, v + h)
        &&& cell(a0, quadrant(a0, i, 1), u, v) == f(u + h, v + h + h)
        &&& cell(a0, quadrant(a0, i, 0), u, v) == f(u + h + h, v + h + h)
    } by {
        lemma_mod_shift(u + h, s, 0);
        lemma_mod_shift(v + h, s, 0);
        lemma_mod_shift(u + h + h, s, 1);
        lemma_mod_shift(v + h + h, s, 1);
    }
    lemma_assemble_old(a0, a1, x, (quadrant(a0, i, 3), quadrant(a0, i, 2), quadrant(a0, i, 1), quadrant(a0, i, 0)), f, h, h);
    assert(half(a2[e].spec_rect()).width == s);
    assert forall|u: int, v: int| 0 <= u < s && 0 <= v < s implies {
        &&& #[trigger] cell(a1, x, u, v) == f(u + h, v + h)
        &&& cell(a1, x, u, v) == f(u + s + h, v + h)
        &&& cell(a1, x, u, v) == f(u + h, v + s + h)
        &&& cell(a1, x, u, v) == f(u + s + h, v + s + h)
    } by {
        if u + h < s {
            lemma_mod_shift(u + h, s, 0);
            lemma_mod_shift(u + s + h, s, 1);
        } else {
            lemma_mod_shift(u + h, s, 1);
            lemma_mod_shift(u + s + h, s, 2);
        }
        if v + h < s {
            lemma_mod_shift(v + h, s, 0);
            lemma_mod_shift(v + s + h, s, 1);
        } else {
            lemma_mod_shift(v + h, s, 1);
            lemma_mod_shift(v + s + h, s, 2);
        }
    }
    lemma_assemble_old(a1, a2, e, (x, x, x, x), f, h, h);
}

/// The block of side `2t` with block `x` (side `t`) at its centre and dead
/// cells around it.
#[verifier::spinoff_prover]
#[verifier::rlimit(100)]
pub(crate) proof fn lemma_border_cells(
    a0: Seq<Node>,
    a1: Seq<Node>,
    a2: Seq<Node>,
    a3: Seq<Node>,
    x: int,
    br: int,
    nw_ex: int,
    ne_ex: int,
    sw_ex: int,
    se_ex: int,
    e: int,
)
    requires
        a0.is_prefix_of(a1),
        a1.is_prefix_of(a2),
        a2.is_prefix_of(a3),
        block_at(a0, x),
        a0[x].spec_level() >= 1,
        0 <= br < a1.len(),
        block_at(a1, br),
        a1[br].spec_population() == 0,
        a1[br].spec_rect() == half(a0[x].spec_rect()),
        block_at(a2, nw_ex) && block_at(a2, ne_ex) && block_at(a2, sw_ex) && block_at(a2, se_ex),
        a2[nw_ex].spec_rect() == a0[x].spec_rect() && a2[nw_ex].spec_level() >= 1,
        a2[ne_ex].spec_rect() == a0[x].spec_rect() && a2[ne_ex].spec_level() >= 1,
        a2[sw_ex].spec_rect() == a0[x].spec_rect() && a2[sw_ex].spec_level() >= 1,
        a2[se_ex].spec_rect() == a0[x].spec_rect() && a2[se_ex].spec_level() >= 1,
        children_are(a2, nw_ex, (br, br, br, quadrant(a0, x, 0))),
        children_are(a2, ne_ex, (br, br, quadrant(a0, x, 1), br)),
        children_are(a2, sw_ex, (br, quadrant(a0, x, 2), br, br)),
        children_are(a2, se_ex, (quadrant(a0, x, 3), br, br, br)),
        block_at(a3, e),
        a3[e].spec_level() >= 1,
        half(a3[e].spec_rect()) == a0[x].spec_rect(),
        children_are(a3, e, (nw_ex, ne_ex, sw_ex, se_ex)),
    ensures
        ({
            let t = a0[x].spec_rect().width as int;
            forall|u: int, v: int|
                0 <= u < 2 * t && 0 <= v < 2 * t ==> #[trigger] cell(a3, e, u, v) == (if t / 2 <= u < 3 * t
                    / 2 && t / 2 <= v < 3 * t / 2 {
                    cell(a0, x, u - t / 2, v - t / 2)
                } else {
                    false
                })
        }),
{
    let t = a0[x].spec_rect().width as int;
    let h = t / 2;
    lemma_block_side(a0, x);
    assert(t == 2 * h);
    lemma_quadrant_cells(a0, x, 0);
    lemma_quadrant_cells(a0, x, 1);
    lemma_quadrant_cells(a0, x, 2);
    lemma_quadrant_cells(a0, x, 3);
    lemma_cells_frame(a0, a1, quadrant(a0, x, 0));
    lemma_cells_frame(a0, a1, quadrant(a0, x, 1));
    lemma_cells_frame(a0, a1, quadrant(a0, x, 2));
    lemma_cells_frame(a0, a1, quadrant(a0, x, 3));
    lemma_sparse_block(a1, br);
    let f = |u: int, v: int| if h <= u < 3 * h && h <= v < 3 * h {
        cell(a0, x, u - h, v - h)
    } else {
        false
    };
    assert(half(a2[nw_ex].spec_rect()).width == h);
    assert forall|u: int, v: int| 0 <= u < h && 0 <= v < h implies {
        &&& #[trigger] cell(a1, br, u, v) == f(u + 0, v + 0)
        &&& cell(a1, br, u, v) == f(u + h + 0, v + 0)
        &&& cell(a1, br, u, v) == f(u + 0, v + h + 0)
        &&& cell(a1, quadrant(a0, x, 0), u, v) == f(u + h + 0, v + h + 0)
    } by {
        assert(!cell(a1, br, u, v));
    }
    lemma_assemble_old(a1, a2, nw_ex, (br, br, br, quadrant(a0, x, 0)), f, 0, 0);
    assert forall|u: int, v: int| 0 <= u < h && 0 <= v < h implies {
        &&& #[trigger] cell(a1, br, u, v) == f(u + t, v + 0)
        &&& cell(a1, br, u, v) == f(u + h + t, v + 0)
        &&& cell(a1, quadrant(a0, x, 1), u, v) == f(u + t, v + h + 0)
        &&& cell(a1, br, u, v) == f(u + h + t, v + h + 0)
    } by {
        assert(!cell(a1, br, u, v));
    }
    lemma_assemble_old(a1, a2, ne_ex, (br, br, quadrant(a0, x, 1), br), f, t, 0);
    assert forall|u: int, v: int| 0 <= u < h && 0 <= v < h implies {
        &&& #[trigger] cell(a1, br, u, v) == f(u + 0, v + t)
        &&& cell(a1, quadrant(a0, x, 2), u, v) == f(u + h + 0, v + t)
        &&& cell(a1, br, u, v) == f(u + 0, v + h + t)
        &&& cell(a1, br, u, v) == f(u + h + 0, v + h + t)
    } by {
        assert(!cell(a1, br, u, v));
    }
    lemma_assemble_old(a1, a2, sw_ex, (br, quadrant(a0, x, 2), br, br), f, 0, t);
    assert forall|u: int, v: int| 0 <= u < h && 0 <= v < h implies {
        &&& #[trigger] cell(a1, quadrant(a0, x, 3), u, v) == f(u + t, v + t)
        &&& cell(a1, br, u, v) == f(u + h + t, v + t)
        &&& cell(a1, br, u, v) == f(u + t, v + h + t)
        &&& cell(a1, br, u, v) == f(u + h + t, v + h + t)
    } by {
        assert(!cell(a1, br, u, v));
    }
    lemma_assemble_old(a1, a2, se_ex, (quadrant(a0, x, 3), br, br, br), f, t, t);
    lemma_cells_frame(a2, a3, nw_ex);
    lemma_cells_frame(a2, a3, ne_ex);
    lemma_cells_frame(a2, a3, sw_ex);
    lemma_cells_frame(a2, a3, se_ex);
    assert(half(a3[e].spec_rect()).width == t);
    lemma_assemble_old(a2, a3, e, (nw_ex, ne_ex, sw_ex, se_ex), f, 0, 0);
}

pub(crate) proof fn lemma_torus_cell(aw: Seq<Node>, w: int, a0: Seq<Node>, i: int, s: int, x: int, y: int)
    requires
        s >= 2,
        -1 <= x <= s,
        -1 <= y <= s,
        forall|u: int, v: int|
            0 <= u < 2 * s && 0 <= v < 2 * s ==> #[trigger] cell(aw, w, u, v) == cell(a0, i, wrap(u + s / 2, s), wrap(v + s / 2, s)),
        s % 2 == 0,
    ensures
        cell(aw, w, x + s / 2, y + s / 2) == (torus_bit(flat(a0, i), s, x, y) == 1),
{
    let (u, v) = (x + s / 2 + s / 2, y + s / 2 + s / 2);
    assert(u == x + s && v == y + s);
    if x == -1 {
        lemma_mod_shift(x, s, -1);
    } else if x == s {
        lemma_mod_shift(x, s, 1);
    } else {
        lemma_mod_shift(x, s, 0);
    }
    if y == -1 {
        lemma_mod_shift(y, s, -1);
    } else if y == s {
        lemma_mod_shift(y, s, 1);
    } else {
        lemma_mod_shift(y, s, 0);
    }
    if x + s < s {
        lemma_mod_shift(u, s, 0);
    } else if x + s < 2 * s {
        lemma_mod_shift(u, s, 1);
    } else {
        lemma_mod_shift(u, s, 2);
    }
    if y + s < s {
        lemma_mod_shift(v, s, 0);
    } else if y + s < 2 * s {
        lemma_mod_shift(v, s, 1);
    } else {
        lemma_mod_shift(v, s, 2);
    }
}

/// A cell of the wrapped block's centre steps as the cell of the torus it
/// shows.
#[verifier::spinoff_prover]
pub(crate) proof fn lemma_torus_step(aw: Seq<Node>, w: int, a0: Seq<Node>, i: int, s: int, x: int, y: int)
    requires
        s >= 2,
        s % 2 == 0,
        0 <= x < s,
        0 <= y < s,
        forall|u: int, v: int|
            0 <= u < 2 * s && 0 <= v < 2 * s ==> #[trigger] cell(aw, w, u, v) == cell(a0, i, wrap(u + s / 2, s), wrap(v + s / 2, s)),
    ensures
        next_cell(aw, w, x + s / 2, y + s / 2) == life_rule(
            cell(a0, i, x, y),
            torus_count(flat(a0, i), s, x, y),
        ),
{
    lemma_torus_cell(aw, w, a0, i, s, x - 1, y - 1);
    lemma_torus_cell(aw, w, a0, i, s, x - 1, y);
    lemma_torus_cell(aw, w, a0, i, s, x - 1, y + 1);
    lemma_torus_cell(aw, w, a0, i, s, x, y - 1);
    lemma_torus_cell(aw, w, a0, i, s, x, y + 1);
    lemma_torus_cell(aw, w, a0, i, s, x + 1, y - 1);
    lemma_torus_cell(aw, w, a0, i, s, x + 1, y);
    lemma_torus_cell(aw, w, a0, i, s, x + 1, y + 1);
    lemma_torus_cell(aw, w, a0, i, s, x, y);
    lemma_mod_shift(x, s, 0);
    lemma_mod_shift(y, s, 0);
}



/// Appending nodes changes nothing about the earlier ones.
pub(crate) proof fn lemma_node_ok_frame(a: Seq<Node>, b: Seq<Node>, i: int)
    requires
        a.is_prefix_of(b),
        0 <= i < a.len(),
        node_ok(a, i),
    ensures
        node_ok(b, i),
{
    assert(a[i] == b[i]);
    if let Some(c) = a[i].spec_children() {
        assert(a[c.nw.index as int] == b[c.nw.index as int]);
        assert(a[c.ne.index as int] == b[c.ne.index as int]);
        assert(a[c.sw.index as int] == b[c.sw.index as int]);
        assert(a[c.se.index as int] == b[c.se.index as int]);
    }
}

/// Appending nodes leaves the cells of the earlier ones as they were.
pub(crate) proof fn lemma_flat_frame(a: Seq<Node>, b: Seq<Node>, i: int)
    requires
        a.is_prefix_of(b),
        0 <= i < a.len(),
    ensures
        flat(b, i) == flat(a, i),
    decreases i,
{
    assert(a[i] == b[i]);
    if let Some(c) = a[i].spec_children() {
        if c.nw.index < i && c.ne.index < i && c.sw.index < i && c.se.index < i {
            lemma_flat_frame(a, b, c.nw.index as int);
            lemma_flat_frame(a, b, c.ne.index as int);
            lemma_flat_frame(a, b, c.sw.index as int);
            lemma_flat_frame(a, b, c.se.index as int);
        }
    }
}

pub(crate) proof fn lemma_count_true_append(a: Seq<bool>, b: Seq<bool>)
    ensures
        count_true(a + b) == count_true(a) + count_true(b),
    decreases b.len(),
{
    if b.len() > 0 {
        assert((a + b).drop_last() =~= a + b.drop_last());
        lemma_count_true_append(a, b.drop_last());
    } else {
        assert(a + b =~= a);
    }
}

pub(crate) proof fn lemma_count_true_bound(s: Seq<bool>)
    ensures
        count_true(s) <= s.len(),
    decreases s.len(),
{
    if s.len() > 0 {
        lemma_count_true_bound(s.drop_last());
    }
}

/// A buffer that counts no set bit has none.
pub(crate) proof fn lemma_count_true_zero(s: Seq<bool>)
    requires
        count_true(s) == 0,
    ensures
        s =~= Seq::new(s.len(), |i: int| false),
    decreases s.len(),
{
    if s.len() > 0 {
        lemma_count_true_zero(s.drop_last());
        assert(s =~= s.drop_last().push(s.last()));
    }
}

pub(crate) proof fn lemma_split_area(r: Rectangle)
    requires
        splits(r.width as nat, r.height as nat),
    ensures
        area(r) == 4 * area(half(r)),
        r.width == 2 * half(r).width,
        r.height == 2 * half(r).height,
{
    let w = r.width as nat;
    let h = r.height as nat;
    assert(w * h == (2 * (w / 2)) * (2 * (h / 2)));
    assert((2 * (w / 2)) * (2 * (h / 2)) == 4 * ((w / 2) * (h / 2))) by (nonlinear_arith);
}

/// The cells of a consistent node number its area, and its population is
/// the number of live ones among them.
pub(crate) proof fn lemma_flat_shape(arena: Seq<Node>, i: int)
    requires
        0 <= i < arena.len(),
        forall|j: int| 0 <= j <= i ==> #[trigger] node_ok(arena, j),
    ensures
        flat(arena, i).len() == area(arena[i].spec_rect()),
        count_true(flat(arena, i)) == arena[i].spec_population(),
    decreases i,
{
    assert(node_ok(arena, i));
    if let Some(c) = arena[i].spec_children() {
        let (a, b, d, e) = (c.nw.index as int, c.ne.index as int, c.sw.index as int, c.se.index as int);
        lemma_flat_shape(arena, a);
        lemma_flat_shape(arena, b);
        lemma_flat_shape(arena, d);
        lemma_flat_shape(arena, e);
        lemma_split_area(arena[i].spec_rect());
        lemma_count_true_append(flat(arena, a), flat(arena, b));
        lemma_count_true_append(flat(arena, a) + flat(arena, b), flat(arena, d));
        lemma_count_true_append(flat(arena, a) + flat(arena, b) + flat(arena, d), flat(arena, e));
    }
}

/// Two consistent nodes with the same content agree in every field.
pub(crate) proof fn lemma_same_content(arena: Seq<Node>, i: int, j: int)
    requires
        0 <= i < arena.len(),
        0 <= j < arena.len(),
        node_ok(arena, i),
        node_ok(arena, j),
        content(arena[i]) == content(arena[j]),
    ensures
        same_node(arena[i], arena[j]),
{
    let (a, b) = (arena[i], arena[j]);
    if a.spec_children() is Some {
        assert(content(a)[0] == 1);
        assert(b.spec_children() is Some) by {
            if b.spec_children() is None {
                assert(content(b)[0] == 0);
            }
        }
        let (ca, cb) = (a.spec_children().unwrap(), b.spec_children().unwrap());
        assert(content(a)[1] == content(b)[1]);
        assert(content(a)[2] == content(b)[2]);
        assert(content(a)[3] == content(b)[3]);
        assert(content(a)[4] == content(b)[4]);
        assert(ca == cb);
        lemma_split_area(a.spec_rect());
        lemma_split_area(b.spec_rect());
    } else {
        assert(content(a)[0] == 0);
        assert(b.spec_children() is None) by {
            if b.spec_children() is Some {
                assert(content(b)[0] == 1);
            }
        }
        let (sa, sb) = (a.spec_space().unwrap(), b.spec_space().unwrap());
        assert(content(a)[1] == content(b)[1]);
        assert(content(a)[2] == content(b)[2]);
        assert(a.spec_rect() == b.spec_rect());
        assert(bit_symbols(sa) =~= content(a).subrange(3, content(a).len() as int));
        assert(bit_symbols(sb) =~= content(b).subrange(3, content(b).len() as int));
        assert(sa =~= sb) by {
            assert forall|k: int| 0 <= k < sa.len() implies sa[k] == sb[k] by {
                assert(bit_symbols(sa)[k] == bit_symbols(sb)[k]);
            }
        }
    }
}

/// In a consistent arena where no two nodes share a content, two nodes of
/// the same extent and the same cells are one node.
pub(crate) proof fn lemma_cells_determine(arena: Seq<Node>, i: int, j: int)
    requires
        0 <= i < arena.len(),
        0 <= j < arena.len(),
        forall|k: int| 0 <= k < arena.len() ==> #[trigger] node_ok(arena, k),
        forall|a: int, b: int|
            0 <= a < arena.len() && 0 <= b < arena.len() && #[trigger] content(arena[a]) == #[trigger] content(
                arena[b],
            ) ==> a == b,
        arena[i].spec_rect() == arena[j].spec_rect(),
        flat(arena, i) == flat(arena, j),
    ensures
        i == j,
    decreases i + j,
{
    assert(node_ok(arena, i) && node_ok(arena, j));
    let r = arena[i].spec_rect();
    if splits(r.width as nat, r.height as nat) {
        let ci = arena[i].spec_children().unwrap();
        let cj = arena[j].spec_children().unwrap();
        let q = area(half(r)) as int;
        let pi = seq![ci.nw.index as int, ci.ne.index as int, ci.sw.index as int, ci.se.index as int];
        let pj = seq![cj.nw.index as int, cj.ne.index as int, cj.sw.index as int, cj.se.index as int];
        assert forall|k: int| 0 <= k <= i implies #[trigger] node_ok(arena, k) by {}
        assert forall|k: int| 0 <= k <= j implies #[trigger] node_ok(arena, k) by {}
        let fi = flat(arena, i);
        assert forall|m: int| 0 <= m < 4 implies pi[m] == pj[m] by {
            assert(node_ok(arena, pi[m]) && node_ok(arena, pj[m]));
            assert forall|k: int| 0 <= k <= pi[m] implies #[trigger] node_ok(arena, k) by {}
            assert forall|k: int| 0 <= k <= pj[m] implies #[trigger] node_ok(arena, k) by {}
            lemma_flat_shape(arena, pi[m]);
            lemma_flat_shape(arena, pj[m]);
            let (a0, a1, a2, a3) = (flat(arena, pi[0]), flat(arena, pi[1]), flat(arena, pi[2]), flat(arena, pi[3]));
            let (b0, b1, b2, b3) = (flat(arena, pj[0]), flat(arena, pj[1]), flat(arena, pj[2]), flat(arena, pj[3]));
            lemma_flat_shape(arena, pi[0]);
            lemma_flat_shape(arena, pi[1]);
            lemma_flat_shape(arena, pi[2]);
            lemma_flat_shape(arena, pi[3]);
            lemma_flat_shape(arena, pj[0]);
            lemma_flat_shape(arena, pj[1]);
            lemma_flat_shape(arena, pj[2]);
            lemma_flat_shape(arena, pj[3]);
            assert(fi == a0 + a1 + a2 + a3);
            assert(fi == b0 + b1 + b2 + b3);
            assert(a0.len() == q && a1.len() == q && a2.len() == q && a3.len() == q);
            assert(b0.len() == q && b1.len() == q && b2.len() == q && b3.len() == q);
            if m == 0 {
                assert(a0 =~= fi.subrange(0, q));
                assert(b0 =~= fi.subrange(0, q));
            } else if m == 1 {
                assert(a1 =~= fi.subrange(q, 2 * q));
                assert(b1 =~= fi.subrange(q, 2 * q));
            } else if m == 2 {
                assert(a2 =~= fi.subrange(2 * q, 3 * q));
                assert(b2 =~= fi.subrange(2 * q, 3 * q));
            } else {
                assert(a3 =~= fi.subrange(3 * q, 4 * q));
                assert(b3 =~= fi.subrange(3 * q, 4 * q));
            }
            lemma_cells_determine(arena, pi[m], pj[m]);
        }
        assert(content(arena[i]) =~= content(arena[j]));
    } else {
        assert(content(arena[i]) =~= content(arena[j]));
    }
}

} // verus!
