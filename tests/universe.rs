use gameoflife::universe::morton::morton2;
use gameoflife::universe::morton::unravel_point;
use gameoflife::universe::space::BitSpace;
use gameoflife::universe::Universe;

/// The live cells of a grid, by (row, col), read through the Z-order index.
fn live_cells(u: &Universe) -> Vec<(usize, usize)> {
    let cells = u.get_cells();
    let mut out = Vec::new();
    for i in 0..cells.len() {
        if cells.get(i) {
            out.push(unravel_point(i));
        }
    }
    out.sort();
    out
}

/// One generation of Life on an n by n torus, cell by cell.
fn reference_step(cells: &BitSpace, n: usize) -> Vec<bool> {
    let mut next = vec![false; n * n];
    for x in 0..n {
        for y in 0..n {
            let mut count = 0;
            for dx in [n - 1, 0, 1] {
                for dy in [n - 1, 0, 1] {
                    if dx == 0 && dy == 0 {
                        continue;
                    }
                    if cells.get(morton2((x + dx) % n, (y + dy) % n)) {
                        count += 1;
                    }
                }
            }
            let alive = cells.get(morton2(x, y));
            next[morton2(x, y)] = count == 3 || (count == 2 && alive);
        }
    }
    next
}

fn as_vec(cells: &BitSpace) -> Vec<bool> {
    (0..cells.len()).map(|i| cells.get(i)).collect()
}

fn check_against_reference(u: &mut Universe, generations: usize) {
    let n = u.width();
    for _ in 0..generations {
        let expected = reference_step(&u.get_cells(), n);
        u.step();
        assert_eq!(as_vec(&u.get_cells()), expected);
    }
}

#[test]
fn new_rounds_up_to_even() {
    let u = Universe::new(63, 65);
    assert_eq!(u.width(), 64);
    assert_eq!(u.height(), 66);
    let u = Universe::new(64, 64);
    assert_eq!(u.width(), 64);
    assert_eq!(u.height(), 64);
}

#[test]
fn new_grid_is_dead() {
    let u = Universe::new(32, 32);
    let cells = u.get_cells();
    assert_eq!(cells.len(), 32 * 32);
    assert!(as_vec(&cells).iter().all(|b| !b));
}

#[test]
fn set_cells_uses_z_order() {
    let mut u = Universe::new(16, 16);
    u.set_cells(&[(1, 2), (15, 15)]);
    let cells = u.get_cells();
    assert!(cells.get(9));
    assert!(cells.get(255));
    assert_eq!(as_vec(&cells).iter().filter(|b| **b).count(), 2);
    assert_eq!(live_cells(&u), vec![(1, 2), (15, 15)]);
}

#[test]
fn get_cell_out_of_range() {
    let u = Universe::new(16, 16);
    assert!(u.get_cell(16, 0).is_err());
    assert!(u.get_cell(0, 16).is_err());
    assert!(u.get_cell(100, 100).is_err());
    assert_eq!(u.get_cell(15, 15), Ok(false));
}

#[test]
fn get_cell_reads_leaf_rows() {
    // a leaf's buffer is read at row * width + col, while set_cells writes at
    // the Z-order index
    let mut u = Universe::new(16, 16);
    u.set_cells(&[(1, 2)]);
    assert_eq!(u.get_cell(2, 1), Ok(true));
    assert_eq!(u.get_cell(1, 2), Ok(false));
    u.set_cells(&[(4, 8)]);
    assert_eq!(u.get_cell(4, 8), Ok(true));
}

#[test]
fn toggle_cell_flips() {
    let mut u = Universe::new(16, 16);
    u.toggle_cell(4, 8);
    assert_eq!(live_cells(&u), vec![(4, 8)]);
    u.toggle_cell(4, 8);
    assert!(live_cells(&u).is_empty());
}

#[test]
fn round_trip_of_live_cells() {
    let mut u = Universe::new(32, 32);
    u.randomize();
    let before = u.get_cells();
    let live = live_cells(&u);
    u.set_cells(&live);
    assert_eq!(u.get_cells(), before);
}

#[test]
fn reset_twice_is_dead() {
    let mut u = Universe::new(32, 32);
    u.set_flyer(5, 5);
    u.reset();
    let first = u.get_cells();
    u.reset();
    assert_eq!(u.get_cells(), first);
    assert!(live_cells(&u).is_empty());
    u.set_flyer(5, 5);
    u.clear();
    assert!(live_cells(&u).is_empty());
}

#[test]
fn set_width_and_height_clear() {
    let mut u = Universe::new(16, 16);
    u.set_flyer(5, 5);
    u.set_width(32);
    assert_eq!(u.width(), 32);
    assert_eq!(u.get_cells().len(), 32 * 16);
    u.set_height(32);
    assert_eq!(u.height(), 32);
    assert!(live_cells(&u).is_empty());
    u.set_flyer(5, 5);
    u.step();
    assert_eq!(live_cells(&u).len(), 5);
}

#[test]
fn flyer_cells() {
    let mut u = Universe::new(16, 16);
    u.set_flyer(5, 5);
    assert_eq!(live_cells(&u), vec![(4, 4), (5, 5), (5, 6), (6, 4), (6, 5)]);
}

#[test]
fn pulsar_is_period_three() {
    let mut u = Universe::new(32, 32);
    u.set_pulsar(16, 16);
    let start = u.get_cells();
    assert_eq!(live_cells(&u).len(), 48);
    u.step();
    assert_ne!(u.get_cells(), start);
    u.step();
    u.step();
    assert_eq!(u.get_cells(), start);
}

#[test]
fn glider_moves() {
    let mut u = Universe::default();
    u.set_cells(&[(1, 2), (2, 3), (3, 1), (3, 2), (3, 3)]);
    u.step();
    assert_eq!(live_cells(&u), vec![(2, 1), (2, 3), (3, 2), (3, 3), (4, 2)]);
}

#[test]
fn lone_cell_dies_and_empty_stays_empty() {
    let mut u = Universe::new(16, 16);
    u.set_cells(&[(7, 7)]);
    u.step();
    assert!(live_cells(&u).is_empty());
    u.step();
    assert!(live_cells(&u).is_empty());
}

#[test]
fn block_is_still() {
    let mut u = Universe::new(16, 16);
    u.set_cells(&[(6, 6), (6, 7), (7, 6), (7, 7)]);
    u.step();
    assert_eq!(live_cells(&u), vec![(6, 6), (6, 7), (7, 6), (7, 7)]);
}

#[test]
fn blinker_oscillates() {
    let mut u = Universe::new(16, 16);
    u.set_cells(&[(5, 4), (5, 5), (5, 6)]);
    u.step();
    assert_eq!(live_cells(&u), vec![(4, 5), (5, 5), (6, 5)]);
    u.step();
    assert_eq!(live_cells(&u), vec![(5, 4), (5, 5), (5, 6)]);
}

#[test]
fn torus_corner_survives_with_wrapped_neighbours() {
    // (0, 0) keeps two live neighbours, both across the edges
    let mut u = Universe::new(16, 16);
    u.set_cells(&[(0, 0), (15, 0), (0, 15)]);
    u.step();
    let live = live_cells(&u);
    assert!(live.contains(&(0, 0)));
    assert_eq!(live, vec![(0, 0), (0, 15), (15, 0), (15, 15)]);
}

#[test]
fn torus_corner_is_born_from_wrapped_neighbours() {
    let mut u = Universe::new(16, 16);
    u.set_cells(&[(15, 0), (0, 15), (15, 15)]);
    u.step();
    assert!(live_cells(&u).contains(&(0, 0)));
}

#[test]
fn torus_edge_wrap() {
    // a blinker across the left and right edges
    let mut u = Universe::new(16, 16);
    u.set_cells(&[(15, 5), (0, 5), (1, 5)]);
    u.step();
    assert_eq!(live_cells(&u), vec![(0, 4), (0, 5), (0, 6)]);
}

#[test]
fn glider_crosses_the_edge() {
    let mut u = Universe::new(16, 16);
    u.set_cells(&[(1, 2), (2, 3), (3, 1), (3, 2), (3, 3)]);
    for _ in 0..64 {
        u.step();
    }
    // a glider moves one cell diagonally every four generations
    assert_eq!(live_cells(&u), vec![(1, 2), (2, 3), (3, 1), (3, 2), (3, 3)]);
}

#[test]
fn random_grids_match_reference_8() {
    let mut u = Universe::new(8, 8);
    u.randomize();
    check_against_reference(&mut u, 6);
}

#[test]
fn random_grids_match_reference_16() {
    let mut u = Universe::new(16, 16);
    u.randomize();
    check_against_reference(&mut u, 6);
}

#[test]
fn random_grids_match_reference_64() {
    let mut u = Universe::new(64, 64);
    u.fill_cells_random();
    check_against_reference(&mut u, 4);
}

#[test]
fn hash_consing_gives_one_handle() {
    let mut u = Universe::new(32, 32);
    u.set_flyer(5, 5);
    let cells = u.get_cells();
    let a = u.node_with_bits(32, 32, &cells);
    let b = u.node_with_bits(32, 32, &cells);
    assert_eq!(a, b);
    let e1 = u.node(16, 16);
    let e2 = u.node(16, 16);
    assert_eq!(e1, e2);
    let c = u.node_with_children(32, 32, e1, e1, e1, e1);
    assert_eq!(c, u.node(32, 32));
    assert_eq!(u.get_population(a), 5);
    assert_eq!(u.get_population(c), 0);
}

#[test]
fn memo_returns_same_successor() {
    let mut u = Universe::new(32, 32);
    u.set_flyer(10, 10);
    let cells = u.get_cells();
    let a = u.node_with_bits(32, 32, &cells);
    let r1 = u.step_node(a);
    let b = u.node_with_bits(32, 32, &cells);
    let r2 = u.step_node(b);
    assert_eq!(a, b);
    assert_eq!(r1, r2);
    assert_eq!(u.get_level(r1) + 1, u.get_level(a));
}

#[test]
fn slow_sim_steps_centre() {
    let mut u = Universe::new(16, 16);
    u.set_cells(&[(7, 6), (7, 7), (7, 8)]);
    let cells = u.get_cells();
    let id = u.node_with_bits(16, 16, &cells);
    let next = u.slow_sim(id);
    let out = u.build_bitspace_fast(next);
    assert_eq!(out.len(), 64);
    let live: Vec<(usize, usize)> = (0..64).filter(|i| out.get(*i)).map(unravel_point).collect();
    let mut live = live;
    live.sort();
    // the centre 8 by 8 starts at (4, 4)
    assert_eq!(live, vec![(2, 3), (3, 3), (4, 3)]);
}

#[test]
fn expansions_double_the_extent() {
    let mut u = Universe::new(16, 16);
    u.set_cells(&[(0, 0)]);
    let cells = u.get_cells();
    let id = u.node_with_bits(16, 16, &cells);
    let w = u.expand_and_wrap(id);
    assert_eq!(u.get_node(w).rect().width(), 32);
    assert_eq!(u.get_level(w), u.get_level(id) + 1);
    assert_eq!(u.get_population(w), 4);
    let e = u.expand(id);
    assert_eq!(u.get_node(e).rect().height(), 32);
    assert_eq!(u.get_population(e), 1);
    let mut out = u.build_bitspace_fast(e);
    assert_eq!(out.len(), 1024);
    assert!(out.get(morton2(8, 8)));
    u.build_bitspace_from_node(id, &mut out);
    assert_eq!(out.len(), 1024 + 256);
}

#[test]
fn fill_cells_copies_a_buffer() {
    let mut a = Universe::new(32, 32);
    a.set_pulsar(16, 16);
    let cells = a.get_cells();
    let mut b = Universe::new(32, 32);
    b.fill_cells(&cells);
    assert_eq!(b.get_cells(), cells);
    assert_eq!(live_cells(&b).len(), 48);
}

#[test]
fn dead_grid_steps_to_itself() {
    let mut u = Universe::new(32, 32);
    let before = u.get_cells();
    u.step();
    assert_eq!(u.get_cells(), before);
    let r1 = u.node(32, 32);
    u.step();
    assert_eq!(u.node(32, 32), r1);
}
