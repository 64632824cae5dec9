use resolvent::units::{Dimension, UnitError};

#[test]
fn parses_thermal_conductivity() {
    assert_eq!(
        Dimension::parse("W / (m K)").unwrap(),
        Dimension::mass().mul(Dimension::length()).div(Dimension::time().powi(3)).div(Dimension::temperature())
    );
}

#[test]
fn parses_density() {
    assert_eq!(Dimension::parse("kg / m^3").unwrap(), Dimension::mass().div(Dimension::length().powi(3)));
}

#[test]
fn blank_is_dimensionless_and_unknown_units_are_errors() {
    assert_eq!(Dimension::parse("   ").unwrap(), Dimension::dimensionless());
    assert!(matches!(Dimension::parse("furlong"), Err(UnitError::Unknown(_))));
    assert!(matches!(Dimension::parse("m^"), Err(UnitError::BadExponent(_))));
    assert!(matches!(Dimension::parse("(m"), Err(UnitError::Syntax(_))));
}

#[test]
fn exponents_compose() {
    let v = Dimension::length().div(Dimension::time());
    assert_eq!(v.0, [0, 1, -1, 0, 0, 0, 0]);
    assert_eq!(v.powi(2).0, [0, 2, -2, 0, 0, 0, 0]);
    assert_eq!(Dimension::parse("N").unwrap(), Dimension::mass().mul(Dimension::length()).div(Dimension::time().powi(2)));
    assert_eq!(Dimension([127, 0, 0, 0, 0, 0, 0]).checked_mul(Dimension::mass()), None);
}

#[test]
fn dimensions_render_in_base_order() {
    let energy = Dimension::parse("J").unwrap();
    assert_eq!(energy.to_string(), "kg m^2 s^-2");
    assert_eq!(Dimension::dimensionless().to_string(), "1");
    assert_eq!(Dimension::length().to_string(), "m");
    assert_eq!(Dimension([0, 0, 0, 1, 0, -128, 1]).to_string(), "A mol^-128 cd");
}

#[test]
fn a_single_unit_word_parses_to_its_dimension() {
    assert_eq!(Dimension::parse("  m ").unwrap(), Dimension::length());
    assert_eq!(Dimension::parse("kg").unwrap(), Dimension::mass());
    assert!(matches!(Dimension::parse(" parsec "), Err(UnitError::Unknown(_))));
}

#[test]
fn unicode_spaces_separate_unit_words() {
    assert_eq!(Dimension::parse("\u{3000}kg\u{2003}m\u{a0}").unwrap(), Dimension::parse("kg m").unwrap());
    assert_eq!(Dimension::parse("\u{85}\u{2028}").unwrap(), Dimension::dimensionless());
    assert!(Dimension::parse("kg\u{200b}m").is_err());
}

#[test]
fn products_of_words_add_and_subtract_exponents() {
    assert_eq!(Dimension::parse("kg m / s / s").unwrap().0, [1, 1, -2, 0, 0, 0, 0]);
    assert_eq!(Dimension::parse("N*m").unwrap(), Dimension::parse("J").unwrap());
    assert_eq!(Dimension::parse("W/A").unwrap(), Dimension::parse("V").unwrap());
    assert_eq!(Dimension::parse("kg*").unwrap(), Dimension::mass());
    assert_eq!(Dimension::parse("rad/s").unwrap().0, [0, 0, -1, 0, 0, 0, 0]);
    assert!(matches!(Dimension::parse("kg m furlong"), Err(UnitError::Unknown(_))));
    assert!(matches!(Dimension::parse("kg + m"), Err(UnitError::Syntax(_))));
    let heavy = vec!["kg"; 128].join(" ");
    assert!(matches!(Dimension::parse(&heavy), Err(UnitError::BadExponent(_))));
    let light = vec!["kg"; 127].join("*");
    assert_eq!(Dimension::parse(&light).unwrap().0, [127, 0, 0, 0, 0, 0, 0]);
}
