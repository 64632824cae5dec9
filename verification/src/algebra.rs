//! Explicit resource limits for exact algebra, the work meter that enforces
//! them, and the errors algebra routines report.
use vstd::prelude::*;

verus! {

/// Limits on dimension, coefficient growth and work.
#[derive(Clone, Copy, Debug)]
pub struct AlgebraBudget {
    /// Work units (and enumerated expressions) an operation may spend.
    pub max_expression_nodes: usize,
    /// Largest matrix side length.
    pub max_matrix_dimension: usize,
    /// Largest coefficient size, in bits of numerator plus denominator.
    pub max_coefficient_bits: u64,
    /// Largest number of bisections during real-root isolation.
    pub max_root_bisections: usize,
    /// Largest number of lazy nodes forced to evaluate one exact value.
    pub max_lazy_nodes: usize,
}

impl AlgebraBudget {
    /// The default budget.
    pub open spec fn default_spec() -> AlgebraBudget {
        AlgebraBudget {
            max_expression_nodes: 1_000_000,
            max_matrix_dimension: 64,
            max_coefficient_bits: 1_048_576,
            max_root_bisections: 100_000,
            max_lazy_nodes: 1_000_000,
        }
    }

    /// A budget that limits nothing but the number of root bisections.
    pub open spec fn unlimited_spec() -> AlgebraBudget {
        AlgebraBudget {
            max_expression_nodes: usize::MAX,
            max_matrix_dimension: usize::MAX,
            max_coefficient_bits: u64::MAX,
            max_root_bisections: 100_000,
            max_lazy_nodes: usize::MAX,
        }
    }

    /// A budget that limits nothing but the number of root bisections.
    pub fn unlimited() -> (r: AlgebraBudget)
        ensures
            r == AlgebraBudget::unlimited_spec(),
    {
        AlgebraBudget {
            max_expression_nodes: usize::MAX,
            max_matrix_dimension: usize::MAX,
            max_coefficient_bits: u64::MAX,
            max_root_bisections: 100_000,
            max_lazy_nodes: usize::MAX,
        }
    }
}

impl Default for AlgebraBudget {
    fn default() -> (r: AlgebraBudget)
        ensures
            r == AlgebraBudget::default_spec(),
    {
        AlgebraBudget {
            max_expression_nodes: 1_000_000,
            max_matrix_dimension: 64,
            max_coefficient_bits: 1_048_576,
            max_root_bisections: 100_000,
            max_lazy_nodes: 1_000_000,
        }
    }
}

/// Errors reported by exact algebra.
#[derive(Clone, Copy, Debug, PartialEq, Eq)]
pub enum AlgebraError {
    /// Operands of the wrong shape.
    Shape { operation: &'static str, details: &'static str },
    /// A matrix larger than the budget allows.
    MatrixDimension { actual: usize, limit: usize },
    /// A coefficient larger than the budget allows.
    CoefficientBits { actual: u64, limit: u64 },
    /// More work than the budget allows.
    BudgetExceeded { operation: &'static str, limit: usize },
    /// A Sylvester matrix larger than the budget allows.
    ResultantDimension { actual: usize, limit: usize },
    /// Division by the zero polynomial.
    DivisionByZeroPolynomial,
    /// The zero polynomial has no isolated roots.
    ZeroPolynomialRoots,
}

/// Meter for the work an operation spends against its budget.
#[derive(Clone, Copy, Debug)]
pub struct AlgebraWork {
    spent: usize,
    limit: usize,
    operation: &'static str,
}

impl AlgebraWork {
    /// Work spent so far.
    pub closed spec fn spent(&self) -> nat {
        self.spent as nat
    }

    /// The operation being metered.
    pub closed spec fn operation(&self) -> &'static str {
        self.operation
    }

    /// The limit.
    pub closed spec fn limit(&self) -> nat {
        self.limit as nat
    }

    /// A fresh meter for `operation` under `budget`.
    pub fn new(budget: AlgebraBudget, operation: &'static str) -> (r: AlgebraWork)
        ensures
            r.spent() == 0,
            r.limit() == budget.max_expression_nodes,
    {
        AlgebraWork { spent: 0, limit: budget.max_expression_nodes, operation }
    }

    /// Spend `units` of work; fails, spending nothing, when the total would
    /// exceed the limit.
    pub fn spend(&mut self, units: usize) -> (r: Result<(), AlgebraError>)
        ensures
            final(self).limit() == old(self).limit(),
            final(self).operation() == old(self).operation(),
            r is Ok <==> old(self).spent() + units <= old(self).limit(),
            r is Ok ==> final(self).spent() == old(self).spent() + units,
            r is Err ==> final(self).spent() == old(self).spent() && r == Err::<(), AlgebraError>(
                AlgebraError::BudgetExceeded { operation: old(self).operation(), limit: old(self).limit() as usize },
            ),
    {
        if self.spent > self.limit || units > self.limit - self.spent {
            return Err(AlgebraError::BudgetExceeded { operation: self.operation, limit: self.limit });
        }
        self.spent = self.spent + units;
        Ok(())
    }
}

} // verus!
