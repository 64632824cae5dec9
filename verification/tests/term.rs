use resolvent::term::{Atom, ExactDecimal, PrecisionReal, SymbolName, TermBudget, TermError};

fn dec(text: &str) -> (String, i64) {
    let d = ExactDecimal::parse(text).unwrap();
    (d.coefficient().to_string(), d.scale())
}

#[test]
fn exact_decimals_are_canonicalized() {
    assert_eq!(dec("1.50"), ("15".to_string(), 1));
    assert_eq!(dec("100"), ("1".to_string(), -2));
    assert_eq!(dec("-0.0"), ("0".to_string(), 0));
    assert_eq!(dec("1e5"), ("1".to_string(), -5));
    assert_eq!(dec("12.5e-3"), ("125".to_string(), 4));
    assert_eq!(dec("-003.10"), ("-31".to_string(), 1));
    assert_eq!(dec("+5"), ("5".to_string(), 0));
    assert_eq!(dec("5."), ("5".to_string(), 0));
    assert_eq!(dec("0"), ("0".to_string(), 0));
}

#[test]
fn malformed_exact_decimals_are_rejected() {
    let err = |t: &str| ExactDecimal::parse(t).err();
    assert_eq!(err(""), Some(TermError::InvalidAtom("invalid exact decimal")));
    assert_eq!(err("1\0"), Some(TermError::InvalidAtom("invalid exact decimal")));
    assert_eq!(err("1e2e3"), Some(TermError::InvalidAtom("invalid exact decimal exponent")));
    assert_eq!(err("1e"), Some(TermError::InvalidAtom("invalid exact decimal exponent")));
    assert_eq!(err("1e99999999999999999999"), Some(TermError::InvalidAtom("invalid exact decimal exponent")));
    assert_eq!(err("1.2.3"), Some(TermError::InvalidAtom("invalid exact decimal")));
    assert_eq!(err(".5"), Some(TermError::InvalidAtom("invalid exact decimal")));
    assert_eq!(err("abc"), Some(TermError::InvalidAtom("invalid exact decimal")));
    assert_eq!(err("1e-9223372036854775808"), Some(TermError::InvalidAtom("exact decimal scale overflow")));
}

#[test]
fn integer_atoms_require_canonical_spelling() {
    assert_eq!(Atom::integer("42"), Ok(Atom::Integer("42".to_string())));
    assert_eq!(Atom::integer("-7"), Ok(Atom::Integer("-7".to_string())));
    assert_eq!(Atom::integer("0"), Ok(Atom::Integer("0".to_string())));
    assert_eq!(Atom::integer("042"), Err(TermError::InvalidAtom("non-canonical integer spelling")));
    assert_eq!(Atom::integer("-0"), Err(TermError::InvalidAtom("non-canonical integer spelling")));
    assert_eq!(Atom::integer("+4"), Err(TermError::InvalidAtom("non-canonical integer spelling")));
    assert_eq!(Atom::integer("1_000"), Err(TermError::InvalidAtom("non-canonical integer spelling")));
    assert_eq!(Atom::integer("abc"), Err(TermError::InvalidAtom("invalid canonical integer")));
    assert_eq!(Atom::integer(""), Err(TermError::InvalidAtom("invalid canonical integer")));
    assert_eq!(Atom::integer("-"), Err(TermError::InvalidAtom("invalid canonical integer")));
}

#[test]
fn precision_reals_move_trailing_zeros_into_the_exponent() {
    let p = PrecisionReal::new("1200", 3, 53).unwrap();
    assert_eq!((p.significand(), p.exponent10(), p.precision_bits()), ("12", 5, 53));
    let z = PrecisionReal::new("0", 7, 24).unwrap();
    assert_eq!((z.significand(), z.exponent10()), ("0", 0));
    assert_eq!(PrecisionReal::new("12", 3, 0), Err(TermError::InvalidAtom("precision must be nonzero")));
    assert_eq!(PrecisionReal::new("012", 3, 8), Err(TermError::InvalidAtom("non-canonical integer spelling")));
    assert!(PrecisionReal::new("12", i64::MAX, 8).is_ok());
    assert_eq!(
        PrecisionReal::new("120", i64::MAX, 8),
        Err(TermError::InvalidAtom("precision-real exponent overflow"))
    );
}

#[test]
fn symbols_and_budgets() {
    let s = SymbolName::new("physics", "kappa");
    assert_eq!(s.namespace, "physics");
    assert_eq!(s.name, "kappa");
    let b = TermBudget::default();
    assert_eq!(b.max_nodes, 1_000_000);
    assert_eq!(b.max_depth, 100_000);
    assert_eq!(b.max_children_per_node, 100_000);
    assert_eq!(b.max_atom_bytes, 1 << 20);
    assert_eq!(b.max_wire_bytes, 256 << 20);
}

#[test]
fn decimal_exponents_take_the_i64_range() {
    assert_eq!(dec("1e+3"), ("1".to_string(), -3));
    assert_eq!(dec("7e-0"), ("7".to_string(), 0));
    let err = |t: &str| ExactDecimal::parse(t).err();
    assert_eq!(err("1e+"), Some(TermError::InvalidAtom("invalid exact decimal exponent")));
    assert_eq!(err("1e9223372036854775808"), Some(TermError::InvalidAtom("invalid exact decimal exponent")));
    assert_eq!(err("1e-9223372036854775809"), Some(TermError::InvalidAtom("invalid exact decimal exponent")));
}
