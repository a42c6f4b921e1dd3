use voronoi_swim::domain_decomposition::{do_domain_decomposition, max_processor_num};
use voronoi_swim::grid::{Cell, Direction, Grid};
use voronoi_swim::run_data::{Processor, Ratio, RunData};
use voronoi_swim::sweep::{topological_order, ScheduleError, Sweep};
use voronoi_swim::vector_3d::Vector3D;

fn cell(label: usize, x: i64) -> Cell {
    Cell { label, center: Vector3D::new(x, 0, 0), processor_num: 0 }
}

fn line_grid(n: usize) -> Grid {
    let cells: Vec<Cell> = (0..n).map(|i| cell(i, i as i64)).collect();
    let mut pairs = Vec::new();
    for i in 0..n - 1 {
        pairs.push((i, i + 1));
        pairs.push((i + 1, i));
    }
    Grid::from_cell_pairs(cells, &pairs)
}

#[test]
fn decomposition_assigns_every_cell_in_range() {
    let mut grid = line_grid(7);
    do_domain_decomposition(&mut grid, 3);
    let cells = grid.iter();
    assert_eq!(cells.len(), 7);
    let mut seen = Vec::new();
    for c in cells.iter() {
        assert!(c.processor_num < 3);
        if !seen.contains(&c.processor_num) {
            seen.push(c.processor_num);
        }
    }
    assert!(seen.len() <= 3);
    assert_eq!(max_processor_num(&grid), Some(2));
}

#[test]
fn decomposition_splits_line_into_blocks() {
    let mut grid = line_grid(4);
    do_domain_decomposition(&mut grid, 2);
    let procs: Vec<usize> = grid.iter().iter().map(|c| c.processor_num).collect();
    assert_eq!(procs, vec![0, 0, 1, 1]);
}

#[test]
fn topological_order_respects_dependencies() {
    let edges = vec![(0usize, 1usize), (1, 2), (0, 2)];
    let order = topological_order(3, &edges).unwrap();
    let pos = |v: usize| order.iter().position(|&x| x == v).unwrap();
    assert!(pos(0) < pos(1));
    assert!(pos(1) < pos(2));
}

#[test]
fn cyclic_dependencies_are_a_hard_error() {
    let edges = vec![(0usize, 1usize), (1, 0)];
    let result = topological_order(2, &edges);
    assert_eq!(result, Err(ScheduleError::CyclicDependency));
}

#[test]
fn boundary_crossing_charges_communication() {
    // Four cells in a line over two processors: {0,1} on processor 0 and
    // {2,3} on processor 1; sweeping along the line's axis crosses the
    // processor boundary only between cells 1 and 2.
    let mut grid = line_grid(4);
    do_domain_decomposition(&mut grid, 2);
    let directions = vec![Direction { index: 0, vector: Vector3D::new(1, 0, 0) }];
    let sweep = Sweep::new(&grid, &directions, 2);
    let procs: Vec<Processor> = sweep.run_processors().unwrap();
    assert_eq!(procs.len(), 2);
    // The purely internal dependencies (0 -> 1 and 2 -> 3) charge nothing.
    assert_eq!(procs[0].time_spent_communicating, 0);
    // The crossing 1 -> 2 charges processor 1 one communication quantum.
    assert_eq!(procs[1].time_spent_communicating, 1);
    // Processor 0 computes two tasks back to back.
    assert_eq!(procs[0].time, 2);
    assert_eq!(procs[0].time_spent_working, 2);
    assert_eq!(procs[0].time_spent_waiting, 0);
    // Processor 1 communicates, waits for cell 1's completion plus the
    // charge, then computes its two tasks.
    assert_eq!(procs[1].time_spent_working, 2);
    assert_eq!(procs[1].time_spent_waiting, 2);
    assert_eq!(procs[1].time, 5);
}

#[test]
fn run_aggregates_processor_times() {
    let mut grid = line_grid(4);
    do_domain_decomposition(&mut grid, 2);
    let directions = vec![Direction { index: 0, vector: Vector3D::new(1, 0, 0) }];
    let sweep = Sweep::new(&grid, &directions, 2);
    let run_data = sweep.run().unwrap();
    assert_eq!(run_data.num_processors, 2);
    // Wall time is the critical path: the slower processor's clock.
    assert_eq!(run_data.time, 5);
    // The averaged overheads are exact ratios: the single boundary crossing
    // shows up as non-zero communication time, not truncated away.
    assert_eq!(run_data.time_spent_communicating, Ratio { num: 1, den: 2 });
    assert!(run_data.time_spent_communicating.num > 0);
    assert_eq!(
        run_data.time_spent_communicating.num as f64 / run_data.time_spent_communicating.den as f64,
        0.5
    );
    assert_eq!(run_data.time_spent_waiting, Ratio { num: 2, den: 2 });
}

#[test]
fn speedup_and_efficiency_against_self_are_one() {
    let procs = vec![
        Processor { time: 6, time_spent_working: 4, time_spent_communicating: 1, time_spent_waiting: 1 },
        Processor { time: 4, time_spent_working: 4, time_spent_communicating: 0, time_spent_waiting: 0 },
    ];
    let run = RunData::new(&procs);
    assert_eq!(run.time, 6);
    assert_eq!(run.num_processors, 2);
    let speedup = run.get_speedup(&run);
    assert_eq!(speedup.num, speedup.den);
    assert_eq!(speedup.num as f64 / speedup.den as f64, 1.0);
    let efficiency = run.get_efficiency(&run);
    assert_eq!(efficiency.num, efficiency.den);
    assert_eq!(efficiency.num as f64 / efficiency.den as f64, 1.0);
}

#[test]
fn speedup_compares_wall_times() {
    let no_overhead = Ratio { num: 0, den: 1 };
    let slow = RunData {
        time: 10,
        num_processors: 1,
        time_spent_communicating: no_overhead,
        time_spent_waiting: no_overhead,
    };
    let fast = RunData {
        time: 5,
        num_processors: 2,
        time_spent_communicating: no_overhead,
        time_spent_waiting: no_overhead,
    };
    let speedup = fast.get_speedup(&slow);
    assert_eq!(speedup.num as f64 / speedup.den as f64, 2.0);
    let efficiency = fast.get_efficiency(&slow);
    assert_eq!(efficiency.num as f64 / efficiency.den as f64, 1.0);
}

#[test]
fn single_processor_run_has_no_overheads() {
    // Every cell on processor 0: no dependency crosses a boundary, so the
    // run charges no communication and no idle time.
    let grid = line_grid(3);
    let directions = vec![
        Direction { index: 0, vector: Vector3D::new(1, 0, 0) },
        Direction { index: 1, vector: Vector3D::new(-1, 0, 0) },
    ];
    let sweep = Sweep::new(&grid, &directions, 1);
    let procs = sweep.run_processors().unwrap();
    assert_eq!(procs.len(), 1);
    assert_eq!(procs[0].time_spent_communicating, 0);
    assert_eq!(procs[0].time_spent_waiting, 0);
    assert_eq!(procs[0].time_spent_working, 6);
    assert_eq!(procs[0].time, 6);
    let run_data = sweep.run().unwrap();
    assert_eq!(run_data.num_processors, 1);
    assert_eq!(run_data.time, 6);
    assert_eq!(run_data.time_spent_communicating, Ratio { num: 0, den: 1 });
    assert_eq!(run_data.time_spent_waiting, Ratio { num: 0, den: 1 });
}

#[test]
fn sweep_without_decomposition_uses_mesh_assignment() {
    let cells = vec![
        Cell { label: 0, center: Vector3D::new(0, 0, 0), processor_num: 0 },
        Cell { label: 1, center: Vector3D::new(1, 0, 0), processor_num: 1 },
    ];
    let grid = Grid::from_cell_pairs(cells, &[(0, 1), (1, 0)]);
    let num_processors = max_processor_num(&grid).unwrap() + 1;
    assert_eq!(num_processors, 2);
    let directions = vec![Direction { index: 0, vector: Vector3D::new(1, 0, 0) }];
    let sweep = Sweep::new(&grid, &directions, num_processors);
    let run_data = sweep.run().unwrap();
    assert_eq!(run_data.num_processors, 2);
    // Cell 1 waits on cell 0 across the boundary: 1 comm + 1 wait + 1 task.
    assert_eq!(run_data.time, 3);
}
