use resolvent::receipt::{AlgebraOperation, AlgebraReceipt};

fn hex_of(bytes: &[u8]) -> String {
    blake3::hash(bytes).to_hex().to_string()
}

#[test]
fn polynomial_receipt_digests_the_given_encodings() {
    let input = br#"{"coeffs":["-2","0","1"]}"#;
    let output = br#""-8""#;
    let r = AlgebraReceipt::for_polynomial(AlgebraOperation::Resultant, input, output);
    assert_eq!(r.schema, "resolvent-algebra-receipt/1");
    assert_eq!(r.operation, AlgebraOperation::Resultant);
    assert_eq!(r.input_digest, hex_of(input));
    assert_eq!(r.output_digest, hex_of(output));
    assert_ne!(r.input_digest, r.output_digest);
    assert_eq!(r.input_digest.len(), 64);
}

#[test]
fn issued_receipts_pass_the_wire_check() {
    let r = AlgebraReceipt::for_polynomial(AlgebraOperation::Differentiate, b"{}", b"[]");
    let back = AlgebraReceipt::from_fields(
        r.schema.clone(),
        r.operation,
        r.input_digest.clone(),
        r.output_digest.clone(),
    );
    assert_eq!(back, Some(r));
}

#[test]
fn wire_check_rejects_foreign_schema() {
    let d = hex_of(b"x");
    let r = AlgebraReceipt::from_fields(
        "resolvent-algebra-receipt/2".to_string(),
        AlgebraOperation::Canonicalize,
        d.clone(),
        d,
    );
    assert_eq!(r, None);
}

#[test]
fn wire_check_rejects_malformed_digests() {
    let good = hex_of(b"x");
    let schema = "resolvent-algebra-receipt/1".to_string();
    let upper = good.to_uppercase();
    let short = good[..63].to_string();
    let long = format!("{good}0");
    let non_hex = format!("{}g", &good[..63]);
    for bad in [upper, short, long, non_hex, String::new()] {
        assert_eq!(
            AlgebraReceipt::from_fields(schema.clone(), AlgebraOperation::IsolateRealRoots, bad.clone(), good.clone()),
            None
        );
        assert_eq!(
            AlgebraReceipt::from_fields(schema.clone(), AlgebraOperation::IsolateRealRoots, good.clone(), bad),
            None
        );
    }
    let ok = AlgebraReceipt::from_fields(schema, AlgebraOperation::IsolateRealRoots, good.clone(), good.clone());
    assert!(ok.is_some());
}
