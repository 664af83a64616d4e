use placer::Config;
use placer::Coordinate;
use placer::Edge;
use placer::ErrorKind;
use placer::Matrix;
use placer::build_system;
use placer::calculate_manhattan;
use placer::parse;
use placer::run;
use placer::solve_placement;

#[test]
fn valid_input() {
    let args = vec![String::from("test1"), String::from("test2")];
    let config = Config::new(&args).unwrap();

    assert_eq!("test2", config.filename());
}

#[test]
#[should_panic(expected = "Invalid number of arguments, expected 2.")]
fn too_few_arguments() {
    let args = vec![String::from("test1")];
    Config::new(&args).unwrap();
}

// Two static cells at (0,0) and (12,0), one floating cell tied to both: the
// floating cell settles at the midpoint (6,0) and the wirelength is 12.
#[test]
fn test1() {
    let contents = b"0.001\n2 1 2\n0 0\n12 0\n0 2\n1 2\n".to_vec();
    let length = run(&contents).unwrap();

    assert_eq!(12, length);
}

// The same problem turned onto the y axis.
#[test]
fn test2() {
    let contents = b"0.001\n2 1 2\n0 0\n0 12\n0 2\n1 2\n".to_vec();
    let length = run(&contents).unwrap();

    assert_eq!(12, length);
}

// A chain of two floating cells between static anchors at (0,0) and (12,0):
// they settle at (4,0) and (8,0), for a wirelength of 12.
#[test]
fn test3() {
    let contents = b"0.001\n2 2 3\n0 0\n12 0\n0 2\n2 3\n3 1\n".to_vec();
    let length = run(&contents).unwrap();

    assert_eq!(12, length);
}

// A chain of sixteen floating cells between static anchors at (0,0) and
// (42517,0): the cells settle at multiples of 2501 and the wirelength is the
// anchor distance.
#[test]
fn test4() {
    let mut text = String::from("0.001\n2 16 17\n0 0\n42517 0\n0 2\n");
    for k in 2..17 {
        text.push_str(&format!("{} {}\n", k, k + 1));
    }
    text.push_str("17 1\n");
    let length = run(&text.into_bytes()).unwrap();

    assert_eq!(42517, length);
}

// Matrix symmetry on a concrete graph with shared and repeated couplings.
#[test]
fn matrix_is_symmetric() {
    let contents = b"0.001\n1 3 5\n7 -3\n0 1\n1 2\n2 3\n1 3\n1 3\n".to_vec();
    let prob = parse(&contents).unwrap();
    let (a, _xb, _yb) = build_system(&prob);
    for i in 0..3 {
        for j in 0..3 {
            assert_eq!(a.values[i][j], a.values[j][i]);
        }
    }
}

// Diagonal entries are twice the degree and dominate the row.
#[test]
fn matrix_is_diagonally_dominant() {
    let contents = b"0.001\n1 3 5\n7 -3\n0 1\n1 2\n2 3\n1 3\n1 3\n".to_vec();
    let prob = parse(&contents).unwrap();
    let (a, _xb, _yb) = build_system(&prob);
    // degrees: cell 0 (global 1): static edge + edges to 1 and 3x2 to 2 -> 4
    // cell 1 (global 2): edges to 0 and 2 -> 2; cell 2 (global 3): 1 + 2 = 3
    assert_eq!(a.values[0][0], 8);
    assert_eq!(a.values[1][1], 4);
    assert_eq!(a.values[2][2], 6);
    for i in 0..3 {
        let mut off = 0i64;
        for j in 0..3 {
            if i != j {
                off += a.values[i][j].abs();
            }
        }
        assert!(off <= a.values[i][i]);
    }
}

// Well-posed systems settle within the sweep budget, at tighter tolerances
// too (the bounded reading of convergence monotonicity).
#[test]
fn convergence_within_budget() {
    for tol in ["0.1", "0.001", "0.00001"] {
        let mut text = format!("{}\n2 16 17\n0 0\n42517 0\n0 2\n", tol);
        for k in 2..17 {
            text.push_str(&format!("{} {}\n", k, k + 1));
        }
        text.push_str("17 1\n");
        assert_eq!(42517, run(&text.into_bytes()).unwrap());
    }
}

// The evaluator is a pure function: two calls on the same inputs agree.
#[test]
fn evaluator_is_idempotent() {
    let edges = vec![Edge { node_a: 0, node_b: 2 }, Edge { node_a: 1, node_b: 2 }];
    let statics = vec![Coordinate { x: 0, y: 0 }, Coordinate { x: 4, y: 0 }];
    let floats = vec![Coordinate { x: 2, y: 0 }];
    let first = calculate_manhattan(&edges, &statics, &floats);
    let second = calculate_manhattan(&edges, &statics, &floats);

    assert_eq!(first, second);
    assert_eq!(4, first);
}

// An isolated floating cell has a zero diagonal: the solver reports a
// singular system instead of dividing by zero.
#[test]
fn isolated_floating_node_is_singular() {
    let contents = b"0.001\n1 2 1\n3 4\n0 1\n".to_vec();
    let err = run(&contents).unwrap_err();

    assert_eq!(ErrorKind::SingularSystem, err.kind);
}

// Scenario A: static cells at (0,0) and (4,0), one floating cell tied to
// both, tolerance 0.001: it settles at (2,0), wirelength 4.
#[test]
fn scenario_two_anchors() {
    let contents = b"0.001\n2 1 2\n0 0\n4 0\n0 2\n1 2\n".to_vec();
    let prob = parse(&contents).unwrap();
    let cells = solve_placement(&prob).unwrap();

    assert_eq!(1, cells.len());
    assert_eq!(2, cells[0].x);
    assert_eq!(0, cells[0].y);
    assert_eq!(4, run(&contents).unwrap());
}

// Scenario B: a triangle of three floating cells, one corner tied to a
// static cell at (0,0): all three collapse onto the anchor, and the
// wirelength is smaller than any spread-out layout.
#[test]
fn scenario_triangle_collapses() {
    let contents = b"0.001\n1 3 4\n0 0\n1 2\n2 3\n1 3\n0 1\n".to_vec();
    let prob = parse(&contents).unwrap();
    let cells = solve_placement(&prob).unwrap();

    for cell in &cells {
        assert_eq!(0, cell.x);
        assert_eq!(0, cell.y);
    }
    let length = run(&contents).unwrap();
    assert_eq!(0, length);
    assert!(length < 4);
}

// A static-static edge contributes its own distance with no variables.
#[test]
fn static_only_problem() {
    let contents = b"0.001\n2 0 1\n0 0\n3 4\n0 1\n".to_vec();

    assert_eq!(7, run(&contents).unwrap());
}

// A floating-floating self-loop contributes nothing and must not crash.
#[test]
fn self_loop_is_tolerated() {
    let contents = b"0.001\n2 1 3\n0 0\n12 0\n0 2\n1 2\n2 2\n".to_vec();

    assert_eq!(12, run(&contents).unwrap());
}

#[test]
fn empty_input_is_rejected() {
    let err = run(&Vec::new()).unwrap_err();

    assert_eq!(ErrorKind::MalformedProblem, err.kind);
    assert_eq!("File contains no more lines", err.why);
}

#[test]
fn missing_lines_are_rejected() {
    let err = run(&b"0.001\n2 1 2\n0 0\n".to_vec()).unwrap_err();

    assert_eq!(ErrorKind::MalformedProblem, err.kind);
    assert_eq!("File contains no more lines", err.why);
}

#[test]
fn bad_tolerance_is_rejected() {
    let err = run(&b"abc\n1 1 1\n0 0\n0 1\n".to_vec()).unwrap_err();

    assert_eq!(ErrorKind::MalformedProblem, err.kind);
    assert_eq!("Invalid tolerance", err.why);
}

#[test]
fn zero_tolerance_is_rejected() {
    let err = run(&b"0\n1 1 1\n0 0\n0 1\n".to_vec()).unwrap_err();
    assert_eq!("Tolerance must be positive", err.why);

    let err = run(&b"-0.5\n1 1 1\n0 0\n0 1\n".to_vec()).unwrap_err();
    assert_eq!("Tolerance must be positive", err.why);
}

#[test]
fn fractional_tolerance_forms_are_accepted() {
    assert_eq!(12, run(&b".5\n2 1 2\n0 0\n12 0\n0 2\n1 2\n".to_vec()).unwrap());
    assert_eq!(12, run(&b"2.\n2 1 2\n0 0\n12 0\n0 2\n1 2\n".to_vec()).unwrap());
    assert_eq!(12, run(&b"+0.25\n2 1 2\n0 0\n12 0\n0 2\n1 2\n".to_vec()).unwrap());
}

// A tolerance below the fixed-point resolution is indistinguishable from
// zero and is rejected the same way.
#[test]
fn sub_resolution_tolerance_is_rejected() {
    let err = run(&b"0.0000001\n2 1 2\n0 0\n12 0\n0 2\n1 2\n".to_vec()).unwrap_err();

    assert_eq!("Tolerance must be positive", err.why);
}

// A very large tolerance is clamped; the solver then accepts the first
// sweep, which is already exact for a one-variable system.
#[test]
fn huge_tolerance_converges_immediately() {
    let contents = b"99999999999999999999999\n2 1 2\n0 0\n12 0\n0 2\n1 2\n".to_vec();

    assert_eq!(12, run(&contents).unwrap());
}

// Without a trailing newline the reader drops the last real character of
// the final line, so the edge line below ends up with a single token.
#[test]
fn missing_trailing_newline_drops_a_character() {
    let err = run(&b"0.001\n2 0 1\n0 0\n3 4\n0 1".to_vec()).unwrap_err();

    assert_eq!("Invalid edge definition", err.why);
}

#[test]
fn bad_counts_are_rejected() {
    let err = run(&b"0.001\n1 1\n0 0\n0 1\n".to_vec()).unwrap_err();
    assert_eq!("Invalid chip description", err.why);

    let err = run(&b"0.001\n1 -1 1\n0 0\n0 1\n".to_vec()).unwrap_err();
    assert_eq!("Invalid chip description", err.why);

    let err = run(&b"0.001\nx y z\n0 0\n0 1\n".to_vec()).unwrap_err();
    assert_eq!("Invalid number", err.why);
}

#[test]
fn oversized_problem_is_rejected() {
    let err = run(&b"0.001\n1 200000 0\n0 0\n".to_vec()).unwrap_err();

    assert_eq!("Problem too large", err.why);
}

#[test]
fn bad_gate_definition_is_rejected() {
    let err = run(&b"0.001\n1 1 1\n1 2 3\n0 1\n".to_vec()).unwrap_err();
    assert_eq!("Invalid gate definition", err.why);

    let err = run(&b"0.001\n1 1 1\n1 zz\n0 1\n".to_vec()).unwrap_err();
    assert_eq!("Invalid number", err.why);
}

#[test]
fn bad_edge_definition_is_rejected() {
    let err = run(&b"0.001\n1 1 1\n0 0\n1 2 3\n".to_vec()).unwrap_err();
    assert_eq!("Invalid edge definition", err.why);

    let err = run(&b"0.001\n1 1 1\n0 0\n0 5\n".to_vec()).unwrap_err();
    assert_eq!("Edge index out of range", err.why);
}

// Negative coordinates place and round symmetrically (ties away from zero).
#[test]
fn negative_coordinates_are_placed() {
    let contents = b"0.001\n2 1 2\n-12 0\n0 0\n0 2\n1 2\n".to_vec();
    let prob = parse(&contents).unwrap();
    let cells = solve_placement(&prob).unwrap();

    assert_eq!(-6, cells[0].x);
    assert_eq!(12, run(&contents).unwrap());
}

// Tokens beyond the third on the counts line are ignored.
#[test]
fn extra_count_tokens_are_ignored() {
    let contents = b"0.001\n2 1 2 99\n0 0\n12 0\n0 2\n1 2\n".to_vec();

    assert_eq!(12, run(&contents).unwrap());
}

#[test]
fn parse_builds_the_graph() {
    let contents = b"0.001\n2 1 2\n0 0\n12 0\n0 2\n1 2\n".to_vec();
    let prob = parse(&contents).unwrap();

    assert_eq!(1000, prob.solve_diff);
    assert_eq!(1, prob.floating_cells);
    assert_eq!(2, prob.static_cells.len());
    assert_eq!(12, prob.static_cells[1].x);
    assert_eq!(0, prob.static_cells[1].y);
    assert_eq!(2, prob.edges.len());
    assert_eq!(1, prob.edges[1].node_a);
    assert_eq!(2, prob.edges[1].node_b);
}

#[test]
fn matrix_construction_steps() {
    let mut m = Matrix::new(2);
    assert_eq!(0, m.values[0][0]);
    m.add_node_view(0);
    assert_eq!(2, m.values[0][0]);
    m.add_edge_view(0, 1);
    assert_eq!(4, m.values[0][0]);
    assert_eq!(2, m.values[1][1]);
    assert_eq!(-2, m.values[0][1]);
    assert_eq!(-2, m.values[1][0]);
}

#[test]
fn solver_solves_a_diagonal_system() {
    let m = Matrix { size: 1, values: vec![vec![2]] };
    let solution = m.solve(1000, &vec![6]).unwrap();

    assert_eq!(vec![3], solution);
}

#[test]
fn solver_rounds_ties_away_from_zero() {
    let m = Matrix { size: 1, values: vec![vec![2]] };

    assert_eq!(vec![1], m.solve(1000, &vec![1]).unwrap());
    assert_eq!(vec![-1], m.solve(1000, &vec![-1]).unwrap());
}

#[test]
fn solver_reports_a_singular_system() {
    let m = Matrix { size: 1, values: vec![vec![0]] };
    let err = m.solve(1000, &vec![1]).unwrap_err();

    assert_eq!(ErrorKind::SingularSystem, err.kind);
}

#[test]
fn solver_reports_non_convergence() {
    let m = Matrix { size: 2, values: vec![vec![1, -3], vec![-3, 1]] };
    let err = m.solve(1000, &vec![1, 1]).unwrap_err();

    assert_eq!(ErrorKind::NonConvergence, err.kind);
}

#[test]
fn wirelength_resolves_global_indices() {
    let edges = vec![
        Edge { node_a: 0, node_b: 1 },
        Edge { node_a: 0, node_b: 2 },
        Edge { node_a: 2, node_b: 3 },
    ];
    let statics = vec![Coordinate { x: 0, y: 0 }, Coordinate { x: -3, y: 1 }];
    let floats = vec![Coordinate { x: 5, y: 5 }, Coordinate { x: 6, y: 7 }];

    // (0,0)-(-3,1): 4; (0,0)-(5,5): 10; (5,5)-(6,7): 3
    assert_eq!(17, calculate_manhattan(&edges, &statics, &floats));
}
