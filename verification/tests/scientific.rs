use resolvent::scientific::{orientation_sign, standard_constitutive_laws, DiscretizationCatalog, ReferenceCell, SpaceFamily};

#[test]
fn production_catalog_covers_agent_gate_spaces() {
    let c = DiscretizationCatalog::production();
    assert!(c.supports(ReferenceCell::Triangle, SpaceFamily::H1, 2));
    assert!(c.supports(ReferenceCell::Triangle, SpaceFamily::L2, 0));
    assert!(c.supports(ReferenceCell::Triangle, SpaceFamily::HCurl, 0));
    assert!(c.supports(ReferenceCell::Triangle, SpaceFamily::HDiv, 0));
    assert_eq!(orientation_sign(&[1, 0, 2]), -1);
}

#[test]
fn catalog_has_twelve_elements_and_no_high_order_curl() {
    let c = DiscretizationCatalog::production();
    assert_eq!(c.elements.len(), 12);
    assert!(!c.supports(ReferenceCell::Tetrahedron, SpaceFamily::HCurl, 1));
    assert!(!c.supports(ReferenceCell::Triangle, SpaceFamily::Dg, 0));
    assert!(c.supports(ReferenceCell::Tetrahedron, SpaceFamily::H1, 1));
}

#[test]
fn orientation_signs_count_inversions() {
    assert_eq!(orientation_sign(&[]), 1);
    assert_eq!(orientation_sign(&[0, 1, 2]), 1);
    assert_eq!(orientation_sign(&[2, 1, 0]), -1);
    assert_eq!(orientation_sign(&[1, 2, 0]), 1);
    assert_eq!(standard_constitutive_laws().len(), 5);
    assert_eq!(standard_constitutive_laws()[0], "thermal.fourier");
}
