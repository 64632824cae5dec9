//! The semantic centre of a scientific model: explicit scope, parameters,
//! laws, conditions, observables and validation contracts.
use vstd::prelude::*;
use crate::system::ExprId;

verus! {

/// Identifier of a scope.
#[derive(Clone, Copy, Debug, PartialEq, Eq, Hash, Structural)]
pub struct ScopeId(pub u32);

/// Identifier of an observable.
#[derive(Clone, Copy, Debug, PartialEq, Eq, Hash, Structural)]
pub struct ObservableId(pub u32);

/// The character sequences of a list of strings.
pub open spec fn strings(v: Seq<String>) -> Seq<Seq<char>> {
    v.map_values(|s: String| s@)
}

/// The character sequence of an optional string.
pub open spec fn opt_str(o: Option<String>) -> Option<Seq<char>> {
    match o {
        Some(s) => Some(s@),
        None => None,
    }
}

/// Explicit applicability of a claim or model. Scope changes must be
/// represented by a refinement rather than silently widening during
/// lowering or summarization.
#[derive(Clone, Debug, Default)]
pub struct Scope {
    pub id: Option<ScopeId>,
    pub label: String,
    pub parameter_region: Option<String>,
    pub spatial_domain: Option<String>,
    pub temporal_domain: Option<String>,
    pub regularity: Vec<String>,
    pub conventions: Vec<String>,
    pub restrictions: Vec<String>,
}

/// Two scopes agree field by field (strings by their characters).
pub open spec fn same_scope(a: Scope, b: Scope) -> bool {
    &&& a.id == b.id
    &&& a.label@ == b.label@
    &&& opt_str(a.parameter_region) == opt_str(b.parameter_region)
    &&& opt_str(a.spatial_domain) == opt_str(b.spatial_domain)
    &&& opt_str(a.temporal_domain) == opt_str(b.temporal_domain)
    &&& strings(a.regularity@) == strings(b.regularity@)
    &&& strings(a.conventions@) == strings(b.conventions@)
    &&& strings(a.restrictions@) == strings(b.restrictions@)
}

/// Compare two optional strings.
fn eq_opt_string(a: &Option<String>, b: &Option<String>) -> (r: bool)
    ensures
        r == (opt_str(*a) == opt_str(*b)),
{
    match (a, b) {
        (Some(x), Some(y)) => x.eq(y),
        (None, None) => true,
        _ => false,
    }
}

/// Compare two lists of strings element by element.
fn eq_strings(a: &Vec<String>, b: &Vec<String>) -> (r: bool)
    ensures
        r == (strings(a@) == strings(b@)),
{
    if a.len() != b.len() {
        proof {
            assert(strings(a@).len() != strings(b@).len());
        }
        return false;
    }
    let mut i: usize = 0;
    while i < a.len()
        invariant
            a@.len() == b@.len(),
            i <= a@.len(),
            forall|k: int| 0 <= k < i ==> (#[trigger] a@[k])@ == b@[k]@,
        decreases a@.len() - i,
    {
        if !(a[i] == b[i]) {
            proof {
                assert(strings(a@)[i as int] != strings(b@)[i as int]);
            }
            return false;
        }
        i = i + 1;
    }
    proof {
        assert(strings(a@) =~= strings(b@));
    }
    true
}

impl PartialEq for Scope {
    fn eq(&self, other: &Self) -> (r: bool) {
        self.id == other.id && self.label == other.label && eq_opt_string(&self.parameter_region, &other.parameter_region)
            && eq_opt_string(&self.spatial_domain, &other.spatial_domain) && eq_opt_string(
            &self.temporal_domain,
            &other.temporal_domain,
        ) && eq_strings(&self.regularity, &other.regularity) && eq_strings(&self.conventions, &other.conventions)
            && eq_strings(&self.restrictions, &other.restrictions)
    }
}

impl vstd::std_specs::cmp::PartialEqSpecImpl for Scope {
    open spec fn obeys_eq_spec() -> bool {
        true
    }

    open spec fn eq_spec(&self, other: &Self) -> bool {
        same_scope(*self, *other)
    }
}

impl Eq for Scope {}

/// A named model parameter.
#[derive(Clone, Debug, PartialEq, Eq)]
pub struct Parameter {
    pub name: String,
    pub value: ExprId,
    pub unit: Option<String>,
    pub scope: Option<ScopeId>,
}

/// A state variable of the model.
#[derive(Clone, Debug, PartialEq, Eq)]
pub struct StateVariable {
    pub name: String,
    pub symbol: ExprId,
    pub unit: Option<String>,
    pub domain: Option<String>,
}

/// A residual-style law; zero residual means the law holds.
#[derive(Clone, Debug, PartialEq, Eq)]
pub struct Law {
    pub name: String,
    /// A residual-style symbolic expression. Zero means the law is satisfied.
    pub residual: ExprId,
    pub scope: Option<ScopeId>,
    /// Optional stable locator back to the formal declaration or source
    /// statement.
    pub source: Option<String>,
}

/// An initial condition on one state.
#[derive(Clone, Debug, PartialEq, Eq)]
pub struct InitialCondition {
    pub state: String,
    pub condition: ExprId,
}

/// A boundary condition on one state.
#[derive(Clone, Debug, PartialEq, Eq)]
pub struct BoundaryCondition {
    pub state: String,
    pub boundary: String,
    pub condition: ExprId,
}

/// A formally named quantity that can be compared with simulation or
/// measurement.
#[derive(Clone, Debug, PartialEq, Eq)]
pub struct Observable {
    pub id: ObservableId,
    pub name: String,
    pub expression: ExprId,
    pub unit: Option<String>,
    pub measurement_model: Option<ExprId>,
    pub uncertainty_model: Option<ExprId>,
    pub source: Option<String>,
}

/// An invariant, conservation, bound, symmetry, convergence, reference or
/// observable-agreement contract a validation must check.
#[derive(Clone, Debug, PartialEq, Eq)]
pub enum ValidationContract {
    Invariant { name: String, predicate: ExprId },
    Conservation { name: String, balance: ExprId },
    Bound { name: String, predicate: ExprId },
    Symmetry { name: String, relation: ExprId },
    Convergence { name: String, expected_order: Option<String> },
    ReferenceCase { name: String, predicate: ExprId },
    ObservableAgreement { observable: ObservableId, metric: String },
}


/// The semantic centre of the scientific stack: what system is claimed to be
/// modelled, under which assumptions and scope, and which observable and
/// invariant contracts matter. It holds no mesh, solver choice, timestep
/// controller, kernel target or experimental data.
#[derive(Clone, Debug, Default)]
pub struct ScientificSpec {
    pub name: String,
    pub scope: Scope,
    pub assumptions: Vec<String>,
    pub parameters: Vec<Parameter>,
    pub state: Vec<StateVariable>,
    pub laws: Vec<Law>,
    pub initial_conditions: Vec<InitialCondition>,
    pub boundary_conditions: Vec<BoundaryCondition>,
    pub observables: Vec<Observable>,
    pub validation_contracts: Vec<ValidationContract>,
    /// Stable locator for the formal source (for example a formal declaration
    /// and a hash of its statement).
    pub formal_source: Option<String>,
}

/// No observable of the list carries the identifier.
pub open spec fn lacks_observable(obs: Seq<Observable>, id: ObservableId) -> bool {
    forall|i: int| 0 <= i < obs.len() ==> (#[trigger] obs[i]).id != id
}

impl ScientificSpec {
    /// The first declared observable with the given identifier.
    pub fn observable(&self, id: ObservableId) -> (r: Option<&Observable>)
        ensures
            r is None <==> lacks_observable(self.observables@, id),
            r matches Some(o) ==> exists|i: int|
                0 <= i < self.observables@.len() && self.observables@[i] == *o && o.id == id
                    && lacks_observable(self.observables@.take(i), id),
    {
        let mut i: usize = 0;
        while i < self.observables.len()
            invariant
                i <= self.observables@.len(),
                lacks_observable(self.observables@.take(i as int), id),
            decreases self.observables@.len() - i,
        {
            if self.observables[i].id == id {
                return Some(&self.observables[i]);
            }
            proof {
                assert(self.observables@.take(i as int + 1) =~= self.observables@.take(i as int).push(
                    self.observables@[i as int],
                ));
            }
            i = i + 1;
        }
        proof {
            assert(self.observables@.take(i as int) =~= self.observables@);
        }
        None
    }

    /// Whether the specification declares neither state nor laws.
    pub fn is_structurally_empty(&self) -> (r: bool)
        ensures
            r == (self.state@.len() == 0 && self.laws@.len() == 0),
    {
        self.state.is_empty() && self.laws.is_empty()
    }
}

} // verus!
