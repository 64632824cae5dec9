use resolvent::refinement::{
    ArtifactHash, Assumption, AssumptionSet, EvidenceSet, Obligation, ObligationKind, ObligationSet, Provenance,
    Refinement, RefinementRelation, Stage,
};
use resolvent::spec::{Scope, ScopeId};

fn provenance() -> Provenance {
    Provenance {
        producer: "p".into(),
        producer_version: "1".into(),
        source_locator: None,
        hash_algorithm: "sha256".into(),
        notes: Vec::new(),
    }
}

fn refinement(source_scope: Scope, target_scope: Scope, obligations: ObligationSet) -> Refinement {
    Refinement {
        source_stage: Stage::FormalSpec,
        target_stage: Stage::SymbolicModel,
        source_hash: ArtifactHash(vec![1]),
        target_hash: ArtifactHash(vec![2]),
        relation: RefinementRelation::Specialization,
        source_scope,
        target_scope,
        assumptions: AssumptionSet::default(),
        obligations,
        evidence: EvidenceSet::default(),
        provenance: provenance(),
    }
}

#[test]
fn scope_changes_are_detected() {
    let a = Scope { label: "bulk".into(), ..Scope::default() };
    let b = Scope { label: "bulk".into(), ..Scope::default() };
    let c = Scope { label: "bulk".into(), id: Some(ScopeId(3)), ..Scope::default() };
    assert!(!refinement(a.clone(), b, ObligationSet::default()).changes_scope());
    assert!(refinement(a, c, ObligationSet::default()).changes_scope());
}

#[test]
fn obligations_track_what_is_open() {
    let mut set = ObligationSet::default();
    set.push(Obligation { kind: ObligationKind::Stability, statement: "s".into(), source: None, discharged: true });
    set.push(Obligation { kind: ObligationKind::ScopeTransport, statement: "t".into(), source: None, discharged: false });
    assert_eq!(set.iter().len(), 2);
    assert_eq!(set.open().len(), 1);
    assert_eq!(set.open()[0].kind, ObligationKind::ScopeTransport);
    assert!(!set.all_discharged());
    let r = refinement(Scope::default(), Scope::default(), set);
    assert!(r.has_open_obligations());
    assert!(!refinement(Scope::default(), Scope::default(), ObligationSet::default()).has_open_obligations());
    let mut assumptions = AssumptionSet::default();
    assumptions.push(Assumption { name: "a".into(), statement: "x > 0".into(), source: None });
    assert_eq!(assumptions.iter()[0].name, "a");
}
