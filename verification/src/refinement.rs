//! Auditable refinement receipts between scientific and compiler
//! artifacts: stages, the precise semantic relation claimed, assumptions,
//! proof obligations and provenance.
use vstd::prelude::*;
use crate::spec::{Scope, same_scope};

verus! {

/// A stage of the scientific/compiler pipeline.
#[derive(Clone, Copy, Debug, PartialEq, Eq, Hash, Structural)]
pub enum Stage {
    FormalSpec,
    SymbolicModel,
    ReducedSystem,
    VariationalForm,
    DiscreteProgram,
    OperatorProgram,
    ExecutableProgram,
    SimulationResult,
    ObservablePrediction,
}

/// Semantic claim made by a transformation, precise enough that exact
/// equivalence, approximation, specialization and empirical adequacy never
/// collapse into one status word.
#[derive(Clone, Debug, PartialEq, Eq)]
pub enum RefinementRelation {
    DefinitionallyEqual,
    MathematicallyEquivalent,
    LogicalConsequence,
    Specialization,
    Reformulation,
    StrongToWeakForm,
    IndexReduced,
    Discretization { method: String, consistency: Option<String>, convergence: Option<String> },
    Approximation { metric: String, bound: Option<String> },
    FinitePrecisionImplementation { arithmetic: String, error_model: Option<String> },
    CompiledImplementation { backend: String },
    ObservableInterpretation,
}

/// A named assumption with its statement and source.
#[derive(Clone, Debug, PartialEq, Eq)]
pub struct Assumption {
    pub name: String,
    pub statement: String,
    pub source: Option<String>,
}

/// The assumptions a refinement rests on, in insertion order.
#[derive(Clone, Debug, Default, PartialEq, Eq)]
pub struct AssumptionSet(Vec<Assumption>);

impl AssumptionSet {
    /// The assumptions, in insertion order.
    pub closed spec fn items(&self) -> Seq<Assumption> {
        self.0@
    }

    /// Append an assumption.
    pub fn push(&mut self, assumption: Assumption)
        ensures
            final(self).items() == old(self).items().push(assumption),
    {
        self.0.push(assumption);
    }

    /// The assumptions, in insertion order.
    pub fn iter(&self) -> (r: &[Assumption])
        ensures
            r@ == self.items(),
    {
        self.0.as_slice()
    }
}

/// The kind of proof obligation a refinement carries.
#[derive(Clone, Copy, Debug, PartialEq, Eq, Hash, Structural)]
pub enum ObligationKind {
    FormalProof,
    Regularity,
    Existence,
    Uniqueness,
    Stability,
    Consistency,
    Convergence,
    QuadratureExactness,
    Orientation,
    Conservation,
    AdjointIdentity,
    FloatingPointError,
    ReferenceCrosscheck,
    ExperimentalAdequacy,
    ScopeTransport,
}

/// One proof obligation and whether it is discharged.
#[derive(Clone, Debug, PartialEq, Eq)]
pub struct Obligation {
    pub kind: ObligationKind,
    pub statement: String,
    pub source: Option<String>,
    pub discharged: bool,
}

/// The obligations of a refinement, in insertion order.
#[derive(Clone, Debug, Default, PartialEq, Eq)]
pub struct ObligationSet(Vec<Obligation>);

impl ObligationSet {
    /// The obligations, in insertion order.
    pub closed spec fn items(&self) -> Seq<Obligation> {
        self.0@
    }

    /// Append an obligation.
    pub fn push(&mut self, obligation: Obligation)
        ensures
            final(self).items() == old(self).items().push(obligation),
    {
        self.0.push(obligation);
    }

    /// The obligations, in insertion order.
    pub fn iter(&self) -> (r: &[Obligation])
        ensures
            r@ == self.items(),
    {
        self.0.as_slice()
    }

    /// The obligations not yet discharged, in insertion order.
    pub fn open(&self) -> (r: Vec<&Obligation>)
        ensures
            r@.map_values(|o: &Obligation| *o) == self.items().filter(|o: Obligation| !o.discharged),
    {
        let mut out: Vec<&Obligation> = Vec::new();
        let mut i: usize = 0;
        while i < self.0.len()
            invariant
                i <= self.0@.len(),
                out@.map_values(|o: &Obligation| *o) == self.0@.subrange(0, i as int).filter(|o: Obligation| !o.discharged),
            decreases self.0@.len() - i,
        {
            let o = &self.0[i];
            proof {
                let pre = self.0@.subrange(0, i as int);
                assert(self.0@.subrange(0, i + 1) =~= pre.push(self.0@[i as int]));
                let nxt = pre.push(self.0@[i as int]);
                assert(nxt.drop_last() =~= pre);
                reveal(Seq::filter);
            }
            let ghost before = out@;
            if !o.discharged {
                out.push(o);
                proof {
                    assert(out@.map_values(|o: &Obligation| *o) =~= before.map_values(|o: &Obligation| *o).push(*o));
                }
            }
            i = i + 1;
        }
        proof {
            assert(self.0@.subrange(0, self.0@.len() as int) =~= self.0@);
        }
        out
    }

    /// Is every obligation discharged?
    pub fn all_discharged(&self) -> (r: bool)
        ensures
            r == forall|k: int| 0 <= k < self.items().len() ==> (#[trigger] self.items()[k]).discharged,
    {
        let mut i: usize = 0;
        while i < self.0.len()
            invariant
                i <= self.0@.len(),
                forall|k: int| 0 <= k < i ==> (#[trigger] self.0@[k]).discharged,
            decreases self.0@.len() - i,
        {
            if !self.0[i].discharged {
                return false;
            }
            i = i + 1;
        }
        true
    }
}

/// Who produced an artifact, from where, and how it was hashed.
#[derive(Clone, Debug, PartialEq, Eq)]
pub struct Provenance {
    pub producer: String,
    pub producer_version: String,
    pub source_locator: Option<String>,
    pub hash_algorithm: String,
    pub notes: Vec<String>,
}

/// The content hash of an artifact.
#[derive(Clone, Debug, PartialEq, Eq)]
pub struct ArtifactHash(pub Vec<u8>);

/// The evidence items supporting a refinement.
#[derive(Clone, Debug, Default, PartialEq, Eq)]
pub struct EvidenceSet(pub Vec<String>);

/// Auditable receipt connecting two compiler/scientific artifacts.
#[derive(Clone, Debug, PartialEq, Eq)]
pub struct Refinement {
    pub source_stage: Stage,
    pub target_stage: Stage,
    pub source_hash: ArtifactHash,
    pub target_hash: ArtifactHash,
    pub relation: RefinementRelation,
    pub source_scope: Scope,
    pub target_scope: Scope,
    pub assumptions: AssumptionSet,
    pub obligations: ObligationSet,
    pub evidence: EvidenceSet,
    pub provenance: Provenance,
}

impl Refinement {
    /// A scope change is never implicit: callers gate promotion on this and
    /// require a discharged scope-transport obligation whenever it holds.
    pub fn changes_scope(&self) -> (r: bool)
        ensures
            r == !same_scope(self.source_scope, self.target_scope),
    {
        !(self.source_scope == self.target_scope)
    }

    /// Is some obligation still open?
    pub fn has_open_obligations(&self) -> (r: bool)
        ensures
            r == exists|k: int| 0 <= k < self.obligations.items().len() && !(#[trigger] self.obligations.items()[k]).discharged,
    {
        !self.obligations.all_discharged()
    }
}

} // verus!
