//! The canonical receipt body and the numeric formatting it relies on,
//! checked against `serde_json` and `rust_decimal` themselves.

use std::str::FromStr;

use serde_json::Value;
use xbrl_facts::evidence::receipts::canonical_body;
use xbrl_facts::{
    Claim, ClaimKind, Decimal, Derivation, DerivationInput, Evidence, Extraction, Locator, Operation,
    SourceArtifact, XbrlLocator,
};

fn s(v: &str) -> Value {
    Value::String(v.to_owned())
}

fn obj(members: Vec<(&str, Value)>) -> Value {
    let mut m = serde_json::Map::new();
    for (k, v) in members {
        m.insert(k.to_owned(), v);
    }
    Value::Object(m)
}

fn sample_evidence(unit_ref: Option<&str>, range: Option<(u64, u64)>) -> Evidence {
    Evidence {
        source_artifact: SourceArtifact {
            uri: "edinet://S100/\"quoted\"\\path".into(),
            sha256: "ab".repeat(32),
            retrieved_at: Some("2026-08-18T00:00:00Z".into()),
            authority: None,
        },
        locator: Locator::Xbrl(XbrlLocator {
            concept: "jppfs_cor:NetSales".into(),
            context_ref: "Cur\tYear\u{1}".into(),
            unit_ref: unit_ref.map(|u| u.to_owned()),
            byte_range: range,
        }),
        extraction: Extraction { engine: "xbrl-facts-evidence@0.1.0".into() },
    }
}

fn evidence_value(e: &Evidence) -> Value {
    let a = &e.source_artifact;
    let mut artifact = vec![("uri", s(&a.uri)), ("sha256", s(&a.sha256))];
    if let Some(r) = &a.retrieved_at {
        artifact.push(("retrieved_at", s(r)));
    }
    if let Some(x) = &a.authority {
        artifact.push(("authority", s(x)));
    }
    let l = e.locator.xbrl();
    let mut locator = vec![("profile", s("xbrl")), ("concept", s(&l.concept)), ("context_ref", s(&l.context_ref))];
    if let Some(u) = &l.unit_ref {
        locator.push(("unit_ref", s(u)));
    }
    if let Some((a, b)) = l.byte_range {
        locator.push(("byte_range", Value::Array(vec![Value::from(a), Value::from(b)])));
    }
    obj(vec![
        ("source_artifact", obj(artifact)),
        ("locator", obj(locator)),
        ("extraction", obj(vec![("engine", s(&e.extraction.engine))])),
    ])
}

fn claim_value(c: &Claim) -> Value {
    let mut m = vec![("value", s(&c.value))];
    if let Some(u) = &c.unit {
        m.push(("unit", s(u)));
    }
    m.push(("kind", s(if c.kind == ClaimKind::Stated { "stated" } else { "derived" })));
    m.push(("doc_id", s(&c.doc_id)));
    obj(m)
}

#[test]
fn stated_body_matches_serde_json() {
    let claim = Claim {
        value: "50684952000000".into(),
        unit: Some("JPY".into()),
        kind: ClaimKind::Stated,
        doc_id: "S100Y8NY\n日本語 \u{7f} \u{1f}".into(),
    };
    let evidence = vec![sample_evidence(Some("JPY"), Some((120, 3456)))];
    let expected = Value::Array(vec![
        s("er/0.1"),
        claim_value(&claim),
        Value::Array(evidence.iter().map(evidence_value).collect()),
        Value::Null,
    ]);
    let body = canonical_body(&claim, &evidence, &None).unwrap();
    assert_eq!(body, serde_json::to_string(&expected).unwrap());
}

#[test]
fn derived_body_matches_serde_json() {
    let claim = Claim { value: "0.25".into(), unit: None, kind: ClaimKind::Derived, doc_id: "DOC1".into() };
    for (operation, op) in [
        (Operation::Ratio { round_dp: Some(4) }, obj(vec![("op", s("ratio")), ("round_dp", Value::from(4u32))])),
        (Operation::GrowthRate { round_dp: None }, obj(vec![("op", s("growth_rate")), ("round_dp", Value::Null)])),
        (Operation::Difference, obj(vec![("op", s("difference"))])),
    ] {
        let derivation = Some(Derivation {
            operation,
            inputs: vec![
                DerivationInput { receipt_id: "er_1".into(), value: "50".into(), role: "numerator".into() },
                DerivationInput { receipt_id: "er_2".into(), value: "200".into(), role: "denominator".into() },
            ],
        });
        let inputs = derivation
            .as_ref()
            .unwrap()
            .inputs
            .iter()
            .map(|i| obj(vec![("receipt_id", s(&i.receipt_id)), ("value", s(&i.value)), ("role", s(&i.role))]))
            .collect();
        let expected = Value::Array(vec![
            s("er/0.1"),
            claim_value(&claim),
            Value::Array(vec![]),
            obj(vec![("operation", op), ("inputs", Value::Array(inputs))]),
        ]);
        let body = canonical_body(&claim, &[], &derivation).unwrap();
        assert_eq!(body, serde_json::to_string(&expected).unwrap());
    }
}

#[test]
fn locator_without_optional_fields_omits_them() {
    let claim = Claim { value: "1".into(), unit: None, kind: ClaimKind::Stated, doc_id: "D".into() };
    let evidence = vec![sample_evidence(None, None)];
    let body = canonical_body(&claim, &evidence, &None).unwrap();
    assert!(body.contains(r#""locator":{"profile":"xbrl","concept":"jppfs_cor:NetSales","context_ref":"Cur\tYear\u0001"}"#));
    assert!(!body.contains("authority"));
    assert!(body.ends_with(",null]"));
}

#[test]
fn decimal_display_matches_rust_decimal() {
    for text in [
        "0", "-0", "1", "1.50", "123.45", "-0.001", "1000000", "0.0000", "-42", "3.1415926535",
        "79228162514264337593543950335", "-79228162514264337593543950335", "0.0000000000000000000000000001",
        "12345678901234567890.123456789", "abc", "", "1e3", "--1",
    ] {
        let ours = Decimal::parse(text);
        let theirs = rust_decimal::Decimal::from_str(text).ok();
        assert_eq!(ours.is_some(), theirs.is_some(), "parse of {text:?}");
        if let (Some(a), Some(b)) = (ours, theirs) {
            assert_eq!(a.to_string(), b.to_string(), "display of {text:?}");
            assert_eq!(a.normalize().to_string(), b.normalize().to_string(), "normalize of {text:?}");
        }
    }
}

#[test]
fn decimal_arithmetic_matches_rust_decimal() {
    let pairs = [("50", "200"), ("1", "3"), ("-50", "-100"), ("2.5", "0.5"), ("7", "0")];
    for (a, b) in pairs {
        let (x, y) = (Decimal::parse(a).unwrap(), Decimal::parse(b).unwrap());
        let (p, q) = (rust_decimal::Decimal::from_str(a).unwrap(), rust_decimal::Decimal::from_str(b).unwrap());
        assert_eq!(x.checked_div(&y).map(|d| d.to_string()), p.checked_div(q).map(|d| d.to_string()));
        assert_eq!(x.checked_sub(&y).map(|d| d.to_string()), p.checked_sub(q).map(|d| d.to_string()));
        assert_eq!(x.checked_mul(&y).map(|d| d.to_string()), p.checked_mul(q).map(|d| d.to_string()));
    }
}
