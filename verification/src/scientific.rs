//! Declarative vocabulary of the scientific model language: domains,
//! spaces, boundary conditions, property and constitutive contracts, the
//! production discretization catalog, coupling graphs and execution
//! staging.
use vstd::prelude::*;

verus! {

/// A byte range `start..end` in a source text.
#[derive(Clone, Copy, Debug, PartialEq, Eq, Structural)]
pub struct SourceSpan {
    pub start: usize,
    pub end: usize,
}

/// A named spatial domain of some dimension and coordinate system.
#[derive(Clone, Debug, PartialEq, Eq)]
pub struct DomainDecl {
    pub name: String,
    pub dimension: u8,
    pub coordinates: CoordinateSystem,
    pub span: SourceSpan,
}

/// Coordinate system of a domain.
#[derive(Clone, Debug, PartialEq, Eq)]
pub enum CoordinateSystem {
    Cartesian,
    Cylindrical,
    Spherical,
    Custom(String),
}

/// Role of a field in a model.
#[derive(Clone, Debug, PartialEq, Eq)]
pub enum FieldRoleV1 {
    State,
    Unknown,
    Test,
    Trial,
    Coefficient,
    Parameter,
    Derived,
}

/// Value shape of a field or property.
#[derive(Clone, Debug, PartialEq, Eq, Structural)]
pub enum ValueShapeV1 {
    Scalar,
    Vector(u8),
    Tensor { rows: u8, cols: u8 },
    SymmetricTensor(u8),
}

/// A function space: family, order and continuity.
#[derive(Clone, Debug, PartialEq, Eq)]
pub struct SpaceSpec {
    pub family: SpaceFamily,
    pub order: u8,
    pub continuity: ContinuityV1,
}

/// Sobolev family of a function space.
#[derive(Clone, Copy, Debug, PartialEq, Eq, PartialOrd, Ord, Hash, Structural)]
pub enum SpaceFamily {
    H1,
    L2,
    HCurl,
    HDiv,
    Dg,
}

/// Inter-element continuity of a space.
#[derive(Clone, Debug, PartialEq, Eq)]
pub enum ContinuityV1 {
    Continuous,
    Discontinuous,
    Tangential,
    Normal,
}

/// Integration measure of a form term.
#[derive(Clone, Debug, PartialEq, Eq)]
pub enum MeasureV1 {
    Cell(String),
    Boundary(String),
    InteriorFacet(String),
}

/// Kind of boundary condition.
#[derive(Clone, Copy, Debug, PartialEq, Eq, Structural)]
pub enum BoundaryConditionKind {
    Dirichlet,
    Neumann,
    Robin,
    Interface,
}

/// Unary operators of model expressions.
#[derive(Clone, Copy, Debug, PartialEq, Eq, Structural)]
pub enum UnaryOp {
    Neg,
}

/// Binary operators of model expressions.
#[derive(Clone, Copy, Debug, PartialEq, Eq, Structural)]
pub enum BinaryOp {
    Add,
    Sub,
    Mul,
    Div,
    Pow,
    Eq,
    Lt,
    Le,
    Gt,
    Ge,
}

/// Errors of the scientific model language.
#[derive(Clone, Debug, PartialEq)]
pub enum ScientificError {
    Syntax { message: String, span: SourceSpan },
    Duplicate(String),
    UnknownName(String),
    ImportCycle(String),
    MissingModule(String),
    Quantity(String),
    Property(String),
}

/// A source of imported module texts, by module name.
pub trait ModuleSource {
    /// The text of module `name`, when it exists.
    fn load(&self, name: &str) -> Option<String>;
}

/// Symmetry of a tensor-valued property.
#[derive(Clone, Debug, PartialEq, Eq)]
pub enum TensorSymmetry {
    NoSymmetry,
    Symmetric,
    MajorMinor,
}

/// Frame a property value is expressed in.
#[derive(Clone, Debug, PartialEq, Eq)]
pub enum FrameSemantics {
    Scalar,
    Material,
    Reference,
    Spatial,
}

/// Where a property is evaluated.
#[derive(Clone, Debug, PartialEq, Eq)]
pub enum PropertyLocality {
    Pointwise,
    ElementConstant,
    ExternalProvider,
}

/// How a property's derivative is obtained.
#[derive(Clone, Debug, PartialEq, Eq)]
pub enum DerivativeContract {
    Symbolic,
    AnalyticProvided,
    Automatic,
    Piecewise,
    NumericalAllowed,
    NoDerivative,
}

/// A property served by an external provider.
#[derive(Clone, Debug, PartialEq, Eq)]
pub struct PropertyProviderRef {
    pub provider: String,
    pub property: String,
}

/// Comparison operator of a piecewise-property predicate.
#[derive(Clone, Copy, Debug, PartialEq, Eq, Structural)]
pub enum CompareOp {
    Lt,
    Le,
    Gt,
    Ge,
}

/// Interpolation of a tabulated property.
#[derive(Clone, Debug, PartialEq, Eq)]
pub enum Interpolation {
    Linear,
    Multilinear,
    MonotoneCubic,
}

/// How a tabulated property is differentiated.
#[derive(Clone, Debug, PartialEq, Eq)]
pub enum TableDerivativePolicy {
    PiecewiseConstantSlope,
    Numerical,
    Unavailable,
}

/// What happens outside a property's validity domain.
#[derive(Clone, Debug, PartialEq, Eq)]
pub enum OutOfValidityPolicy {
    Error,
    Warn,
    ExplicitExtrapolation(String),
}

/// How a constitutive law's tangent is obtained.
#[derive(Clone, Debug, PartialEq, Eq)]
pub enum TangentContract {
    Symbolic,
    Automatic,
    AnalyticProvided,
    NumericalAllowed,
    NoTangent,
}

/// How a constitutive law updates its internal state.
#[derive(Clone, Debug, PartialEq, Eq)]
pub enum UpdateContract {
    Stateless,
    TransactionalLocal { may_request_step_reduction: bool },
}

/// The constitutive laws every installation provides, by identifier.
pub fn standard_constitutive_laws() -> (r: Vec<&'static str>)
    ensures
        r@.len() == 5,
{
    let mut v: Vec<&'static str> = Vec::new();
    v.push("thermal.fourier");
    v.push("diffusion.fick");
    v.push("electrical.ohm");
    v.push("mechanics.hooke_isotropic");
    v.push("fluids.newtonian");
    v
}

/// Reference cell of an element.
#[derive(Clone, Copy, Debug, PartialEq, Eq, Structural)]
pub enum ReferenceCell {
    Triangle,
    Tetrahedron,
}

/// Finite-element family.
#[derive(Clone, Copy, Debug, PartialEq, Eq, Structural)]
pub enum ElementFamilyV1 {
    Lagrange,
    Discontinuous,
    NedelecFirstKind,
    RaviartThomas,
}

/// One element of the discretization catalog.
#[derive(Clone, Debug, PartialEq, Eq, Structural)]
pub struct ElementSpec {
    pub cell: ReferenceCell,
    pub family: ElementFamilyV1,
    pub space: SpaceFamily,
    pub order: u8,
    pub value_shape: ValueShapeV1,
}

/// Quadrature choice of a form.
#[derive(Clone, Debug, PartialEq, Eq)]
pub enum QuadraturePolicy {
    Automatic,
    Order(u8),
    ExactForDegree(u8),
}

/// The elements a backend can discretize with.
#[derive(Clone, Debug)]
pub struct DiscretizationCatalog {
    pub elements: Vec<ElementSpec>,
}

/// The production elements on one reference cell: Lagrange H1 of orders 1
/// and 2, discontinuous L2 of orders 0 and 1, lowest-order Nédélec
/// (H(curl)) and Raviart-Thomas (H(div)) with vector values of the cell's
/// dimension.
pub open spec fn production_on(cell: ReferenceCell) -> Seq<ElementSpec> {
    let dim: u8 = if cell == ReferenceCell::Triangle { 2 } else { 3 };
    seq![
        ElementSpec { cell, family: ElementFamilyV1::Lagrange, space: SpaceFamily::H1, order: 1, value_shape: ValueShapeV1::Scalar },
        ElementSpec { cell, family: ElementFamilyV1::Lagrange, space: SpaceFamily::H1, order: 2, value_shape: ValueShapeV1::Scalar },
        ElementSpec { cell, family: ElementFamilyV1::Discontinuous, space: SpaceFamily::L2, order: 0, value_shape: ValueShapeV1::Scalar },
        ElementSpec { cell, family: ElementFamilyV1::Discontinuous, space: SpaceFamily::L2, order: 1, value_shape: ValueShapeV1::Scalar },
        ElementSpec { cell, family: ElementFamilyV1::NedelecFirstKind, space: SpaceFamily::HCurl, order: 0, value_shape: ValueShapeV1::Vector(dim) },
        ElementSpec { cell, family: ElementFamilyV1::RaviartThomas, space: SpaceFamily::HDiv, order: 0, value_shape: ValueShapeV1::Vector(dim) },
    ]
}

/// Push the production elements of one cell.
fn push_production(elements: &mut Vec<ElementSpec>, cell: ReferenceCell)
    ensures
        final(elements)@ == old(elements)@ + production_on(cell),
{
    let dim: u8 = match cell {
        ReferenceCell::Triangle => 2,
        ReferenceCell::Tetrahedron => 3,
    };
    let mut order: u8 = 1;
    while order <= 2
        invariant
            1 <= order <= 3,
            elements@ == old(elements)@ + production_on(cell).subrange(0, (order - 1) as int),
        decreases 3 - order,
    {
        elements.push(ElementSpec { cell, family: ElementFamilyV1::Lagrange, space: SpaceFamily::H1, order, value_shape: ValueShapeV1::Scalar });
        proof {
            assert(production_on(cell).subrange(0, order as int) =~= production_on(cell).subrange(0, (order - 1) as int).push(
                production_on(cell)[(order - 1) as int],
            ));
        }
        order = order + 1;
    }
    let mut order: u8 = 0;
    while order <= 1
        invariant
            order <= 2,
            elements@ == old(elements)@ + production_on(cell).subrange(0, (2 + order) as int),
        decreases 2 - order,
    {
        elements.push(ElementSpec { cell, family: ElementFamilyV1::Discontinuous, space: SpaceFamily::L2, order, value_shape: ValueShapeV1::Scalar });
        proof {
            assert(production_on(cell).subrange(0, (3 + order) as int) =~= production_on(cell).subrange(0, (2 + order) as int).push(
                production_on(cell)[(2 + order) as int],
            ));
        }
        order = order + 1;
    }
    elements.push(ElementSpec { cell, family: ElementFamilyV1::NedelecFirstKind, space: SpaceFamily::HCurl, order: 0, value_shape: ValueShapeV1::Vector(dim) });
    elements.push(ElementSpec { cell, family: ElementFamilyV1::RaviartThomas, space: SpaceFamily::HDiv, order: 0, value_shape: ValueShapeV1::Vector(dim) });
    proof {
        assert(production_on(cell).subrange(0, 6) =~= production_on(cell));
        assert(elements@ =~= old(elements)@ + production_on(cell));
    }
}

impl DiscretizationCatalog {
    /// The production catalog: the production elements on triangles, then
    /// on tetrahedra.
    pub fn production() -> (r: DiscretizationCatalog)
        ensures
            r.elements@ == production_on(ReferenceCell::Triangle) + production_on(ReferenceCell::Tetrahedron),
    {
        let mut elements: Vec<ElementSpec> = Vec::new();
        push_production(&mut elements, ReferenceCell::Triangle);
        push_production(&mut elements, ReferenceCell::Tetrahedron);
        proof {
            assert(Seq::<ElementSpec>::empty() + production_on(ReferenceCell::Triangle) =~= production_on(ReferenceCell::Triangle));
        }
        DiscretizationCatalog { elements }
    }

    /// Does some element of the catalog have this cell, space and order?
    pub fn supports(&self, cell: ReferenceCell, space: SpaceFamily, order: u8) -> (r: bool)
        ensures
            r == exists|k: int|
                0 <= k < self.elements@.len() && (#[trigger] self.elements@[k]).cell == cell && self.elements@[k].space == space
                    && self.elements@[k].order == order,
    {
        let mut k: usize = 0;
        while k < self.elements.len()
            invariant
                k <= self.elements@.len(),
                forall|j: int|
                    0 <= j < k ==> !((#[trigger] self.elements@[j]).cell == cell && self.elements@[j].space == space
                        && self.elements@[j].order == order),
            decreases self.elements@.len() - k,
        {
            let e = &self.elements[k];
            if e.cell == cell && e.space == space && e.order == order {
                return true;
            }
            k = k + 1;
        }
        false
    }
}

/// Number of pairs `i < j < n` with `p[i] > p[j]`, counted row by row.
pub open spec fn inversions_upto(p: Seq<usize>, n: int) -> nat
    decreases n,
{
    if n <= 0 {
        0
    } else {
        inversions_upto(p, n - 1) + inversions_after(p, n - 1, p.len() as int)
    }
}

/// Number of `j` in `i+1..m` with `p[i] > p[j]`.
pub open spec fn inversions_after(p: Seq<usize>, i: int, m: int) -> nat
    decreases m - i,
{
    if m <= i + 1 {
        0
    } else {
        inversions_after(p, i, m - 1) + if p[i] > p[m - 1] { 1nat } else { 0nat }
    }
}

/// The sign of a permutation: `+1` for an even number of inversions, `-1`
/// for an odd number.
pub fn orientation_sign(permutation: &[usize]) -> (r: i8)
    ensures
        r == (if inversions_upto(permutation@, permutation@.len() as int) % 2 == 0 { 1i8 } else { -1i8 }),
{
    let n = permutation.len();
    let mut odd = false;
    let mut i: usize = 0;
    while i < n
        invariant
            n == permutation@.len(),
            i <= n,
            odd == (inversions_upto(permutation@, i as int) % 2 == 1),
        decreases n - i,
    {
        let mut j: usize = i + 1;
        let ghost base = inversions_upto(permutation@, i as int);
        while j < n
            invariant
                n == permutation@.len(),
                i < n,
                i + 1 <= j <= n,
                odd == ((base + inversions_after(permutation@, i as int, j as int)) % 2 == 1),
            decreases n - j,
        {
            if permutation[i] > permutation[j] {
                odd = !odd;
            }
            j = j + 1;
        }
        i = i + 1;
    }
    if odd {
        -1
    } else {
        1
    }
}

/// An unknown block: a named block of one field.
#[derive(Clone, Debug, PartialEq, Eq)]
pub struct UnknownBlock {
    pub name: String,
    pub field: String,
}

/// Why one block depends on another.
#[derive(Clone, Debug, PartialEq, Eq)]
pub enum CouplingReason {
    DirectFieldUse,
    PropertyDependency(String),
    ConstitutiveDependency(String),
    InterfaceTerm,
    HistoryState,
}

/// A dependency of one block on another, with the path that causes it.
#[derive(Clone, Debug, PartialEq, Eq)]
pub struct CouplingEdge {
    pub from: String,
    pub to: String,
    pub reason: CouplingReason,
    pub path: Vec<String>,
}

/// Whether a residual block structurally depends on an unknown.
#[derive(Clone, Debug, PartialEq, Eq)]
pub struct BlockDerivative {
    pub residual: String,
    pub unknown: String,
    pub structurally_nonzero: bool,
}

/// Unknowns, residual blocks, dependency edges and the Jacobian pattern of
/// a model.
#[derive(Clone, Debug, PartialEq, Eq)]
pub struct CouplingGraph {
    pub unknowns: Vec<UnknownBlock>,
    pub residual_blocks: Vec<String>,
    pub edges: Vec<CouplingEdge>,
    pub derivatives: Vec<BlockDerivative>,
}

/// A stage of the element-level execution pipeline.
#[derive(Clone, Copy, Debug, PartialEq, Eq, Structural)]
pub enum RuntimeStage {
    Gather,
    Restrict,
    Geometry,
    Basis,
    FieldDerivative,
    PointwiseProperty,
    WeakIntegrand,
    Quadrature,
    LocalAccumulation,
    Scatter,
    BoundaryLift,
}

/// The staged execution plan of a model.
#[derive(Clone, Debug, PartialEq, Eq)]
pub struct ScientificExecutionPlan {
    pub schema: String,
    pub model: String,
    pub stages: Vec<RuntimeStage>,
    pub residual_blocks: Vec<String>,
    pub derivative_blocks: Vec<BlockDerivative>,
}

/// Whether a field evolves differentially or algebraically in time.
#[derive(Clone, Copy, Debug, PartialEq, Eq, Structural)]
pub enum TimeRole {
    Differential,
    Algebraic,
}

/// The crossing direction an event detects.
#[derive(Clone, Copy, Debug, PartialEq, Eq, Structural)]
pub enum EventDirection {
    Any,
    Rising,
    Falling,
}

} // verus!
