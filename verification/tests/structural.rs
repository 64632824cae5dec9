use resolvent::structural::{analyze, maximum_matching, strongly_connected_components};
use resolvent::system::{EquationId, ExprId, System, SystemEquation, Variable, VariableId, VariableKind};

fn small_system() -> System {
    let x = VariableId(0);
    let y = VariableId(1);
    System {
        name: "two-by-two".into(),
        variables: vec![
            Variable { id: x, name: "x".into(), kind: VariableKind::Algebraic, expression: ExprId(0), derivative_of: None },
            Variable { id: y, name: "y".into(), kind: VariableKind::Algebraic, expression: ExprId(1), derivative_of: None },
        ],
        equations: vec![
            SystemEquation { id: EquationId(0), name: "e0".into(), residual: ExprId(2), variables: vec![x, y] },
            SystemEquation { id: EquationId(1), name: "e1".into(), residual: ExprId(3), variables: vec![y] },
        ],
        ..System::default()
    }
}

#[test]
fn matching_is_perfect_and_deterministic() {
    let system = small_system();
    let a = maximum_matching(&system);
    let b = maximum_matching(&system);
    assert_eq!(a, b);
    assert!(a.is_square_and_perfect(&system));
}

#[test]
fn analysis_builds_dependency_blocks() {
    let analysis = analyze(&small_system());
    assert_eq!(analysis.matching.cardinality, 2);
    assert_eq!(analysis.blocks.iter().map(Vec::len).sum::<usize>(), 2);
}

#[test]
fn matching_pairs_each_equation_with_a_variable_it_mentions() {
    let system = small_system();
    let m = maximum_matching(&system);
    assert_eq!(m.equation_to_variable, vec![Some(VariableId(0)), Some(VariableId(1))]);
    let empty = System::default();
    let e = maximum_matching(&empty);
    assert_eq!(e.cardinality, 0);
    assert!(e.is_square_and_perfect(&empty));
}

#[test]
fn system_lookups_find_the_first_match() {
    let system = small_system();
    assert_eq!(system.variable(VariableId(1)).map(|v| v.name.clone()), Some("y".to_string()));
    assert!(system.variable(VariableId(7)).is_none());
    assert_eq!(system.equation(EquationId(1)).map(|e| e.variables.len()), Some(1));
    let inc = system.incidence();
    assert_eq!(inc.equation_count(), 2);
    assert_eq!(inc.variable_count(), 2);
    assert_eq!(inc.variables_of(0), &[VariableId(0), VariableId(1)]);
}

#[test]
fn blocks_partition_the_equations_in_dependency_order() {
    let graph = vec![vec![1], vec![0], vec![1]];
    let blocks = strongly_connected_components(&graph);
    assert_eq!(blocks, vec![vec![0, 1], vec![2]]);
}

#[test]
fn no_unmatched_equation_sees_a_free_variable() {
    let x = VariableId(0);
    let y = VariableId(1);
    let system = System {
        name: "three-by-two".into(),
        variables: vec![
            Variable { id: x, name: "x".into(), kind: VariableKind::Algebraic, expression: ExprId(0), derivative_of: None },
            Variable { id: y, name: "y".into(), kind: VariableKind::Algebraic, expression: ExprId(1), derivative_of: None },
        ],
        equations: vec![
            SystemEquation { id: EquationId(0), name: "e0".into(), residual: ExprId(2), variables: vec![x] },
            SystemEquation { id: EquationId(1), name: "e1".into(), residual: ExprId(3), variables: vec![x, y] },
            SystemEquation { id: EquationId(2), name: "e2".into(), residual: ExprId(4), variables: vec![y] },
        ],
        ..System::default()
    };
    let m = maximum_matching(&system);
    assert_eq!(m.cardinality, 2);
    for (u, eq) in system.equations.iter().enumerate() {
        if m.equation_to_variable[u].is_none() {
            for v in &eq.variables {
                assert!(m.equation_to_variable.contains(&Some(*v)));
            }
        }
    }
}
