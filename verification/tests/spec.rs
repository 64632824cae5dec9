use resolvent::spec::{
    Law, Observable, ObservableId, ScientificSpec, StateVariable,
};
use resolvent::system::ExprId;

fn observable(id: u32, name: &str) -> Observable {
    Observable {
        id: ObservableId(id),
        name: name.to_string(),
        expression: ExprId(id),
        unit: None,
        measurement_model: None,
        uncertainty_model: None,
        source: None,
    }
}

#[test]
fn observable_lookup_returns_the_first_match() {
    let mut spec = ScientificSpec::default();
    spec.observables.push(observable(1, "energy"));
    spec.observables.push(observable(2, "momentum"));
    spec.observables.push(observable(2, "shadowed"));
    assert_eq!(spec.observable(ObservableId(2)).map(|o| o.name.clone()), Some("momentum".to_string()));
    assert_eq!(spec.observable(ObservableId(1)).map(|o| o.name.clone()), Some("energy".to_string()));
    assert!(spec.observable(ObservableId(7)).is_none());
}

#[test]
fn structural_emptiness_looks_at_state_and_laws() {
    let mut spec = ScientificSpec::default();
    assert!(spec.is_structurally_empty());
    spec.observables.push(observable(1, "energy"));
    assert!(spec.is_structurally_empty());
    spec.laws.push(Law { name: "balance".to_string(), residual: ExprId(3), scope: None, source: None });
    assert!(!spec.is_structurally_empty());
    let mut other = ScientificSpec::default();
    other.state.push(StateVariable { name: "u".to_string(), symbol: ExprId(4), unit: None, domain: None });
    assert!(!other.is_structurally_empty());
}
