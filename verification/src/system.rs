//! Scientific equation-system dialect: variables, equations and their exact
//! structural incidence, consumed by matching, SCC and block-triangular passes.
use vstd::prelude::*;

verus! {

/// Identifier of an equation in a system.
#[derive(Clone, Copy, Debug, PartialEq, Eq, Hash, Structural)]
pub struct EquationId(pub u32);

/// Identifier of an expression owned by the surrounding model.
#[derive(Clone, Copy, Debug, PartialEq, Eq, Hash, Structural)]
pub struct ExprId(pub u32);

/// Identifier of a system variable.
#[derive(Clone, Copy, Debug, PartialEq, Eq, Hash, Structural)]
pub struct VariableId(pub u32);

/// The role a variable plays in an equation system.
#[derive(Clone, Copy, Debug, PartialEq, Eq, Hash, Structural)]
pub enum VariableKind {
    State,
    Derivative,
    Algebraic,
    Parameter,
    Input,
}

/// A system variable.
#[derive(Clone, Debug)]
pub struct Variable {
    pub id: VariableId,
    pub name: String,
    pub kind: VariableKind,
    pub expression: ExprId,
    pub derivative_of: Option<VariableId>,
}

/// One residual equation with its exact structural incidence.
#[derive(Clone, Debug)]
pub struct SystemEquation {
    pub id: EquationId,
    pub name: String,
    pub residual: ExprId,
    /// Exact structural incidence supplied by construction/analysis. This is
    /// deliberately separate from numeric Jacobian sparsity at one evaluation point.
    pub variables: Vec<VariableId>,
}

/// A lumped equation system.
#[derive(Clone, Debug)]
pub struct System {
    pub name: String,
    pub variables: Vec<Variable>,
    pub equations: Vec<SystemEquation>,
    pub events: Vec<ExprId>,
    pub assumptions: Vec<String>,
}

impl Default for System {
    fn default() -> (r: System)
        ensures
            r.variables@.len() == 0,
            r.equations@.len() == 0,
            r.events@.len() == 0,
            r.assumptions@.len() == 0,
    {
        System { name: String::new(), variables: Vec::new(), equations: Vec::new(), events: Vec::new(), assumptions: Vec::new() }
    }
}

impl System {
    /// The first variable with identifier `id`.
    pub fn variable(&self, id: VariableId) -> (r: Option<&Variable>)
        ensures
            match r {
                Some(v) => exists|i: int|
                    0 <= i < self.variables.len() && self.variables@[i] == *v && v.id == id
                        && forall|j: int| 0 <= j < i ==> self.variables@[j].id != id,
                None => forall|i: int| 0 <= i < self.variables.len() ==> self.variables@[i].id != id,
            },
    {
        let mut i: usize = 0;
        while i < self.variables.len()
            invariant
                i <= self.variables.len(),
                forall|j: int| 0 <= j < i ==> self.variables@[j].id != id,
            decreases self.variables.len() - i,
        {
            if self.variables[i].id.0 == id.0 {
                return Some(&self.variables[i]);
            }
            i = i + 1;
        }
        None
    }

    /// The first equation with identifier `id`.
    pub fn equation(&self, id: EquationId) -> (r: Option<&SystemEquation>)
        ensures
            match r {
                Some(e) => exists|i: int|
                    0 <= i < self.equations.len() && self.equations@[i] == *e && e.id == id
                        && forall|j: int| 0 <= j < i ==> self.equations@[j].id != id,
                None => forall|i: int| 0 <= i < self.equations.len() ==> self.equations@[i].id != id,
            },
    {
        let mut i: usize = 0;
        while i < self.equations.len()
            invariant
                i <= self.equations.len(),
                forall|j: int| 0 <= j < i ==> self.equations@[j].id != id,
            decreases self.equations.len() - i,
        {
            if self.equations[i].id.0 == id.0 {
                return Some(&self.equations[i]);
            }
            i = i + 1;
        }
        None
    }

    /// Read-only structural projection of this system.
    pub fn incidence(&self) -> (r: Incidence<'_>)
        ensures
            *r.system() == *self,
    {
        Incidence { system: self }
    }
}

/// Read-only structural projection consumed by matching/BLT/index-reduction passes.
pub struct Incidence<'a> {
    system: &'a System,
}

impl<'a> Incidence<'a> {
    /// The projected system.
    pub closed spec fn system(&self) -> &'a System {
        self.system
    }

    /// Number of equations.
    pub fn equation_count(&self) -> (r: usize)
        ensures
            r == self.system().equations.len(),
    {
        self.system.equations.len()
    }

    /// Number of variables.
    pub fn variable_count(&self) -> (r: usize)
        ensures
            r == self.system().variables.len(),
    {
        self.system.variables.len()
    }

    /// The incidence row of equation `equation`.
    pub fn variables_of(&self, equation: usize) -> (r: &[VariableId])
        requires
            equation < self.system().equations.len(),
        ensures
            r@ == self.system().equations@[equation as int].variables@,
    {
        self.system.equations[equation].variables.as_slice()
    }

    /// All equations, in order.
    pub fn equations(&self) -> (r: &'a [SystemEquation])
        ensures
            r@ == self.system().equations@,
    {
        self.system.equations.as_slice()
    }
}

} // verus!
