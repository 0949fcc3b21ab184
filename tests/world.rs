use gameoflife::terminalvisualizer::TerminalVisualizer;
use gameoflife::world::{CellRef, Initializer, Visualizer, World};

struct Seeds {
    live: Vec<(usize, usize)>,
}

impl Initializer for Seeds {
    fn initialize_cell(&self, x: usize, y: usize) -> bool {
        self.live.contains(&(x, y))
    }
}

fn world_with(width: usize, height: usize, live: &[(usize, usize)]) -> World {
    let seeds = Seeds { live: live.to_vec() };
    World::new(width, height, &seeds).expect("non-empty world")
}

fn live_cells(world: &World) -> Vec<(usize, usize)> {
    let mut out = Vec::new();
    for y in 0..world.get_height() {
        for x in 0..world.get_width() {
            if world.is_alive(x, y) {
                out.push((x, y));
            }
        }
    }
    out
}

fn sorted(mut v: Vec<(usize, usize)>) -> Vec<(usize, usize)> {
    v.sort();
    v
}

fn change_set(changes: &[CellRef]) -> Vec<(usize, usize)> {
    sorted(changes.iter().map(|c| (c.x, c.y)).collect())
}

#[test]
fn blinker_oscillates_on_five_by_five() {
    let horizontal = vec![(1, 2), (2, 2), (3, 2)];
    let vertical = vec![(2, 1), (2, 2), (2, 3)];
    let mut world = world_with(5, 5, &horizontal);
    assert_eq!(live_cells(&world), sorted(horizontal.clone()));

    let changes = world.iterate();
    // Two ends die and two cells are born; the middle stays alive.
    assert_eq!(change_set(&changes), vec![(1, 2), (2, 1), (2, 3), (3, 2)]);
    assert_eq!(sorted(live_cells(&world)), sorted(vertical.clone()));

    let changes = world.iterate();
    assert_eq!(change_set(&changes), vec![(1, 2), (2, 1), (2, 3), (3, 2)]);
    assert_eq!(sorted(live_cells(&world)), sorted(horizontal.clone()));

    for _ in 0..4 {
        assert_eq!(world.iterate().len(), 4);
        assert!(world.recheck_len() > 0);
    }
    assert_eq!(sorted(live_cells(&world)), sorted(horizontal));
}

#[test]
fn blinker_worklist_is_changes_and_their_neighbours() {
    let mut world = world_with(5, 5, &[(1, 2), (2, 2), (3, 2)]);
    assert_eq!(world.recheck_len(), 25);
    world.iterate();
    // Rows 1 to 3 whole, and columns 1 to 3 of rows 0 and 4: each once.
    assert_eq!(world.recheck_len(), 21);
}

fn life_rule(n: usize, was: bool) -> bool {
    n == 3 || (n == 2 && was)
}

#[test]
fn rule_holds_for_every_three_by_three_torus() {
    // On a 3 by 3 torus the neighbours of a cell are the eight other cells.
    for pattern in 0u32..512 {
        let seed: Vec<bool> = (0..9).map(|i| pattern & (1 << i) != 0).collect();
        let mut world = World::from_seed(3, 3, &seed).unwrap();
        world.iterate();
        let total = seed.iter().filter(|b| **b).count();
        for i in 0..9 {
            let was = seed[i];
            let others = total - if was { 1 } else { 0 };
            assert_eq!(world.is_alive(i % 3, i / 3), life_rule(others, was), "pattern {pattern} cell {i}");
        }
    }
}

#[test]
fn corner_counts_wrapped_neighbours() {
    let (w, h) = (6, 5);
    let neighbours = [(w - 1, h - 1), (w - 1, 0), (w - 1, 1), (0, h - 1), (0, 1), (1, h - 1), (1, 0), (1, 1)];
    // Any three of the wrapped neighbours bring the dead corner to life.
    for a in 0..8 {
        for b in (a + 1)..8 {
            for c in (b + 1)..8 {
                let mut world = world_with(w, h, &[neighbours[a], neighbours[b], neighbours[c]]);
                world.iterate();
                assert!(world.is_alive(0, 0), "{:?}", (a, b, c));
            }
        }
    }
    // Three cells two steps away are not neighbours of the corner.
    let mut world = world_with(w, h, &[(2, 0), (0, 2), (h - 2, 0)]);
    world.iterate();
    assert!(!world.is_alive(0, 0));
}

#[test]
fn updates_read_the_previous_generation() {
    // Updating the left end of the row in place first would leave the middle
    // cell with one live neighbour, and it would die.
    let mut world = world_with(6, 6, &[(1, 2), (2, 2), (3, 2)]);
    world.iterate();
    assert_eq!(sorted(live_cells(&world)), vec![(2, 1), (2, 2), (2, 3)]);
}

#[test]
fn block_is_still_and_settles() {
    let block = vec![(1, 1), (1, 2), (2, 1), (2, 2)];
    let mut world = world_with(6, 6, &block);
    let changes = world.iterate();
    assert!(changes.is_empty());
    assert_eq!(world.recheck_len(), 0);
    assert!(world.iterate().is_empty());
    assert_eq!(world.recheck_len(), 0);
    assert_eq!(sorted(live_cells(&world)), sorted(block));
}

#[test]
fn lone_cell_dies_then_world_settles() {
    let mut world = world_with(4, 4, &[(3, 3)]);
    let changes = world.iterate();
    assert_eq!(change_set(&changes), vec![(3, 3)]);
    assert!(live_cells(&world).is_empty());
    // The dead cell and its eight wrapped neighbours: a 3 by 3 square.
    assert_eq!(world.recheck_len(), 9);
    assert!(world.iterate().is_empty());
    assert_eq!(world.recheck_len(), 0);
}

#[test]
fn glider_moves_diagonally_across_the_edge() {
    let glider = vec![(1, 0), (2, 1), (0, 2), (1, 2), (2, 2)];
    let mut world = world_with(8, 8, &glider);
    for _ in 0..32 {
        world.iterate();
    }
    // After 32 generations it has moved 8 cells right and 8 down: home again.
    assert_eq!(sorted(live_cells(&world)), sorted(glider));
}

#[test]
fn empty_dimensions_are_refused() {
    let seeds = Seeds { live: Vec::new() };
    assert!(World::new(0, 5, &seeds).is_none());
    assert!(World::new(5, 0, &seeds).is_none());
    assert!(World::new(1, 1, &seeds).is_some());
    assert!(World::from_seed(0, 0, &Vec::new()).is_none());
    assert!(World::from_seed(2, 2, &vec![true; 3]).is_none());
    assert!(World::from_seed(2, 2, &vec![true; 4]).is_some());
}

#[test]
fn from_seed_is_row_major() {
    let seed = vec![false, true, false, false, false, true];
    let world = World::from_seed(3, 2, &seed).unwrap();
    assert_eq!(world.get_width(), 3);
    assert_eq!(world.get_height(), 2);
    assert_eq!(live_cells(&world), vec![(1, 0), (2, 1)]);
    assert_eq!(world.recheck_len(), 6);
}

#[test]
fn single_column_world() {
    // Width one: a cell's left and right neighbours are its own column.
    let mut world = world_with(1, 4, &[(0, 0), (0, 1)]);
    // A cell counts the cell above three times, itself twice and the cell
    // below three times: both live cells see five, both others see three.
    let changes = world.iterate();
    assert_eq!(change_set(&changes), vec![(0, 0), (0, 1), (0, 2), (0, 3)]);
    assert_eq!(live_cells(&world), vec![(0, 2), (0, 3)]);
    // Every cell is flagged, and listed once.
    assert_eq!(world.recheck_len(), 4);
}

#[test]
fn terminal_defaults_and_size() {
    let v = TerminalVisualizer::new(None, None);
    assert_eq!((v.get_width(), v.get_height()), (80, 30));
    let v = TerminalVisualizer::new(Some(3), None);
    assert_eq!((v.get_width(), v.get_height()), (3, 30));
    let v = TerminalVisualizer::new(Some(2), Some(1));
    assert_eq!(v.draw_world().iter().collect::<String>(), "  \n--\n");
}

#[test]
fn terminal_draws_world_and_follows_changes() {
    let mut world = world_with(4, 3, &[(0, 1), (1, 1), (2, 1)]);
    let mut v = TerminalVisualizer::new(None, None);
    v.update_world(&world);
    assert_eq!((v.get_width(), v.get_height()), (4, 3));
    assert_eq!(v.draw_world().iter().collect::<String>(), "    \n### \n    \n----\n");
    let changes = world.iterate();
    v.update_cells(&world, &changes);
    let mut fresh = TerminalVisualizer::new(None, None);
    fresh.update_world(&world);
    assert_eq!(v.draw_world(), fresh.draw_world());
    assert_eq!(v.draw_world().iter().collect::<String>(), " #  \n #  \n #  \n----\n");
}
