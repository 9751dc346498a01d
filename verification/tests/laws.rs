//! The library's promises on concrete values: document sets, receipts,
//! derivations, signatures, hexadecimal and error messages.

use xbrl_facts::evidence::crypto::{hex_decode, hex_encode};
use xbrl_facts::parser::{merge_into, InstanceParser, StartTag};
use xbrl_facts::{
    build_derived_receipt, build_receipts, parse_instance, parse_instance_set, receipt_id_for,
    sha256_hex, sign_receipt, verify, verify_derived, verify_in, verify_receipts, CheckName, Decimal,
    EvidenceError, InstanceDocument, LabelLinkbase, Operation, Receipt, SchemaIndex, SigningKey,
    SourceArtifact, SourceContext, TaxonomyResolver, ValidationStatus, XbrlError, QName,
};

const INSTANCE: &str = r#"<?xml version="1.0" encoding="UTF-8"?>
<xbrli:xbrl xmlns:xbrli="http://www.xbrl.org/2003/instance"
            xmlns:jppfs_cor="http://disclosure.edinet-fsa.go.jp/taxonomy/jppfs/2023-11-01/jppfs_cor">
  <xbrli:context id="Cur">
    <xbrli:entity><xbrli:identifier scheme="http://disclosure.edinet-fsa.go.jp">E00001-000</xbrli:identifier></xbrli:entity>
    <xbrli:period><xbrli:startDate>2025-04-01</xbrli:startDate><xbrli:endDate>2026-03-31</xbrli:endDate></xbrli:period>
  </xbrli:context>
  <xbrli:unit id="JPY"><xbrli:measure>iso4217:JPY</xbrli:measure></xbrli:unit>
  <jppfs_cor:NetSales contextRef="Cur" unitRef="JPY" decimals="-6">200</jppfs_cor:NetSales>
  <jppfs_cor:OperatingIncome contextRef="Cur" unitRef="JPY" decimals="-6">50</jppfs_cor:OperatingIncome>
  <jppfs_cor:Note contextRef="Cur">a &amp; b</jppfs_cor:Note>
</xbrli:xbrl>
"#;

fn member(context: &str, identifier: &str, fact: &str) -> String {
    format!(
        r#"<xbrli:xbrl xmlns:xbrli="http://www.xbrl.org/2003/instance" xmlns:ex="http://example.com/t" xmlns:link="http://www.xbrl.org/2003/linkbase" xmlns:xlink="http://www.w3.org/1999/xlink">
  <link:schemaRef xlink:href="ex.xsd"/>
  <xbrli:context id="{context}">
    <xbrli:entity><xbrli:identifier scheme="http://example.com">{identifier}</xbrli:identifier></xbrli:entity>
    <xbrli:period><xbrli:instant>2025-03-31</xbrli:instant></xbrli:period>
  </xbrli:context>
  <ex:{fact} contextRef="{context}">text</ex:{fact}>
</xbrli:xbrl>"#
    )
}

fn artifact(bytes: &[u8]) -> SourceArtifact {
    SourceArtifact { uri: "test://doc".into(), sha256: sha256_hex(bytes), retrieved_at: None, authority: None }
}

fn stated() -> Vec<Receipt> {
    let bytes = INSTANCE.as_bytes();
    let doc = parse_instance(bytes).unwrap();
    build_receipts(&doc, "DOC1", &artifact(bytes)).unwrap()
}

#[test]
fn document_set_merges_consistent_members() {
    let a = member("c1", "E1", "A");
    let b = member("c1", "E1", "B");
    let merged = parse_instance_set(&[a.into_bytes(), b.into_bytes()]).unwrap();
    assert_eq!(merged.contexts.len(), 1);
    assert_eq!(merged.facts.len(), 2);
    assert_eq!(merged.schema_refs, vec!["ex.xsd"]);
}

#[test]
fn document_set_rejects_conflicting_context() {
    let a = member("c1", "E1", "A");
    let b = member("c1", "E2", "B");
    let err = parse_instance_set(&[a.into_bytes(), b.into_bytes()]).unwrap_err();
    assert!(matches!(err, XbrlError::IxdsConflict { kind, id } if kind == "context" && id == "c1"));
}

#[test]
fn empty_document_set_is_empty() {
    let merged = parse_instance_set(&[]).unwrap();
    assert_eq!(merged.facts.len(), 0);
    assert_eq!(merged.contexts.len(), 0);
}

#[test]
fn merge_into_keeps_first_definitions() {
    let mut merged = InstanceDocument::empty();
    merge_into(&mut merged, parse_instance(member("c1", "E1", "A").as_bytes()).unwrap()).unwrap();
    merge_into(&mut merged, parse_instance(member("c2", "E2", "B").as_bytes()).unwrap()).unwrap();
    assert_eq!(merged.contexts.len(), 2);
    assert_eq!(merged.contexts.get("c1").unwrap().entity.identifier, "E1");
    assert_eq!(merged.contexts.get("c2").unwrap().entity.identifier, "E2");
}

#[test]
fn non_utf8_input_reports_offset() {
    let mut bytes = b"<a>ok".to_vec();
    bytes.push(0xff);
    let err = parse_instance(&bytes).unwrap_err();
    assert!(matches!(err, XbrlError::Xml { byte_offset: Some(5), .. }));
}

#[test]
fn closing_tag_without_opening_is_an_error() {
    let err = parse_instance(b"</a>").unwrap_err();
    assert!(!err.to_string().is_empty());
}

#[test]
fn escaped_text_is_unescaped() {
    let doc = parse_instance(INSTANCE.as_bytes()).unwrap();
    assert_eq!(doc.facts[2].value, xbrl_facts::RawFactValue::Text { value: "a & b".into() });
}

#[test]
fn error_messages() {
    let e = XbrlError::Xml { message: "bad".into(), byte_offset: Some(5) };
    assert_eq!(e.to_string(), "XML parse error at byte Some(5): bad");
    let e = XbrlError::Xml { message: "bad".into(), byte_offset: None };
    assert_eq!(e.to_string(), "XML parse error at byte None: bad");
    let e = XbrlError::IxdsConflict { kind: "unit".into(), id: "JPY".into() };
    assert_eq!(e.to_string(), "conflicting unit 'JPY' across IXDS members");
    assert_eq!(XbrlError::MissingUnit { unit_ref: "u".into() }.to_string(), "missing unit: u");
    assert_eq!(XbrlError::InvalidDecimal { raw: "x".into() }.to_string(), "invalid decimal value: x");
    assert_eq!(EvidenceError::Parse("p".into()).to_string(), "source parse failed: p");
    assert_eq!(EvidenceError::Derivation("d".into()).to_string(), "derivation failed: d");
}

#[test]
fn sha256_known_vectors() {
    assert_eq!(sha256_hex(b""), "e3b0c44298fc1c149afbf4c8996fb92427ae41e4649b934ca495991b7852b855");
    assert_eq!(sha256_hex(b"abc"), "ba7816bf8f01cfea414140de5dae2223b00361a396177a9cb410ff61f20015ad");
}

#[test]
fn hex_roundtrip_and_errors() {
    let bytes = vec![0u8, 1, 0x7f, 0x80, 0xab, 0xff];
    let text = hex_encode(&bytes);
    assert_eq!(text, "00017f80abff");
    assert_eq!(hex_decode(&text), Some(bytes));
    assert_eq!(hex_decode("ABcd"), Some(vec![0xab, 0xcd]));
    assert_eq!(hex_decode("abc"), None);
    assert_eq!(hex_decode("zz"), None);
    assert_eq!(hex_encode(&hex::decode("deadbeef").unwrap()), hex::encode([0xde, 0xad, 0xbe, 0xef]));
}

#[test]
fn receipt_ids_are_full_digests_of_the_body() {
    let rs = stated();
    assert_eq!(rs.len(), 2);
    for r in &rs {
        let id = receipt_id_for(&r.claim, &r.evidence, &r.derivation).unwrap();
        assert_eq!(id, r.receipt_id);
        assert!(id.starts_with("er_"));
        assert_eq!(id.len(), 3 + 64);
    }
    assert_ne!(rs[0].receipt_id, rs[1].receipt_id);
    assert_eq!(rs[0].schema, "er/0.1");
}

#[test]
fn source_context_values_are_canonical() {
    let ctx = SourceContext::load(INSTANCE.as_bytes()).unwrap();
    assert_eq!(ctx.values().len(), 3);
    assert_eq!(ctx.values()[0].as_ref().unwrap().0, "200");
    assert!(ctx.values()[2].is_none());
    assert_eq!(ctx.sha256(), sha256_hex(INSTANCE.as_bytes()));
}

#[test]
fn verify_in_reports_every_check() {
    let ctx = SourceContext::load(INSTANCE.as_bytes()).unwrap();
    let rs = stated();
    let report = verify_in(&ctx, &rs[1]);
    let names: Vec<CheckName> = report.checks.iter().map(|c| c.name).collect();
    assert_eq!(
        names,
        vec![
            CheckName::ReceiptId,
            CheckName::EvidenceShape,
            CheckName::ArtifactHash,
            CheckName::Locate,
            CheckName::ByteRange,
            CheckName::ValueMatch
        ]
    );
    assert_eq!(report.status, ValidationStatus::Verified);
    assert!(report.checks.iter().all(|c| c.detail.is_none()));
}

#[test]
fn value_match_is_numeric_equality() {
    let ctx = SourceContext::load(INSTANCE.as_bytes()).unwrap();
    let mut r = stated().remove(0);
    r.claim.value = "200.00".into();
    let report = verify_in(&ctx, &r);
    let value = report.checks.iter().find(|c| c.name == CheckName::ValueMatch).unwrap();
    assert!(value.pass);
    let id = report.checks.iter().find(|c| c.name == CheckName::ReceiptId).unwrap();
    assert!(!id.pass);
    assert_eq!(id.detail.as_deref(), Some("receipt body does not hash to receipt_id"));
}

#[test]
fn unparsable_source_fails_locate() {
    let r = stated().remove(0);
    let report = verify(&r, &[0xff, 0xfe]);
    assert_eq!(report.status, ValidationStatus::Failed);
    assert_eq!(report.checks.len(), 1);
    assert_eq!(report.checks[0].name, CheckName::Locate);
    assert!(report.checks[0].detail.as_deref().unwrap().starts_with("source re-parse failed: source parse failed: "));
}

#[test]
fn operation_results_and_errors() {
    let d = |s: &str| Decimal::parse(s).unwrap();
    let ratio = Operation::Ratio { round_dp: Some(4) };
    assert_eq!(ratio.apply(&[d("1"), d("3")]).unwrap().to_string(), "0.3333");
    assert_eq!(ratio.apply(&[d("2"), d("3")]).unwrap().to_string(), "0.6667");
    assert_eq!(Operation::Ratio { round_dp: None }.apply(&[d("1.50"), d("1")]).unwrap().to_string(), "1.5");
    assert_eq!(Operation::Difference.apply(&[d("200"), d("50.5")]).unwrap().to_string(), "149.5");
    match ratio.apply(&[d("1"), d("0")]) {
        Err(EvidenceError::Derivation(m)) => assert_eq!(m, "division by zero"),
        other => panic!("unexpected {other:?}"),
    }
    match Operation::Difference.apply(&[d("1")]) {
        Err(EvidenceError::Derivation(m)) => assert_eq!(m, "operation needs 2 inputs, got 1"),
        other => panic!("unexpected {other:?}"),
    }
    match (Operation::GrowthRate { round_dp: None }).apply(&[d("1"), d("0")]) {
        Err(EvidenceError::Derivation(m)) => assert_eq!(m, "division by zero"),
        other => panic!("unexpected {other:?}"),
    }
    assert_eq!(
        Operation::GrowthRate { round_dp: Some(2) }.apply(&[d("150"), d("100")]).unwrap().to_string(),
        "0.5"
    );
}

#[test]
fn derived_receipt_with_unparsable_parent_fails() {
    let mut rs = stated();
    rs[0].claim.value = "not a number".into();
    let err = build_derived_receipt(Operation::Difference, &[(&rs[0], "a"), (&rs[1], "b")], "DOC1").unwrap_err();
    match err {
        EvidenceError::Derivation(m) => assert!(m.starts_with("parent value not decimal: ")),
        other => panic!("unexpected {other:?}"),
    }
}

#[test]
fn derived_difference_verifies_and_records_lineage() {
    let rs = stated();
    let derived = build_derived_receipt(Operation::Difference, &[(&rs[0], "minuend"), (&rs[1], "subtrahend")], "DOC1")
        .unwrap();
    assert_eq!(derived.claim.value, "150");
    let d = derived.derivation.as_ref().unwrap();
    assert_eq!(d.inputs[0].receipt_id, rs[0].receipt_id);
    assert_eq!(d.inputs[1].role, "subtrahend");
    let parents: Vec<(String, &Receipt)> = rs.iter().map(|r| (r.receipt_id.clone(), r)).collect();
    let report = verify_derived(&derived, &parents);
    assert_eq!(report.status, ValidationStatus::Verified, "{report:?}");
    let names: Vec<CheckName> = report.checks.iter().map(|c| c.name).collect();
    assert_eq!(
        names,
        vec![CheckName::ReceiptId, CheckName::EvidenceShape, CheckName::InputResolution, CheckName::Recompute]
    );
}

#[test]
fn batch_applies_the_chain_rule() {
    let ctx = SourceContext::load(INSTANCE.as_bytes()).unwrap();
    let rs = stated();
    let good = build_derived_receipt(Operation::Ratio { round_dp: Some(4) }, &[(&rs[1], "n"), (&rs[0], "d")], "DOC1")
        .unwrap();
    let mut forged = rs[0].clone();
    forged.claim.value = "1".into();
    let orphan = build_derived_receipt(Operation::Difference, &[(&forged, "a"), (&rs[1], "b")], "DOC1").unwrap();
    let all = vec![good, rs[0].clone(), rs[1].clone(), orphan];
    let outcome = verify_receipts(&ctx, &all);
    assert_eq!(outcome.passed, 3);
    assert_eq!(outcome.failed, 1);
    assert_eq!(outcome.failures.len(), 1);
    // The orphan's parents both verified; it fails on its own recomputation.
    assert!(outcome.failures[0].1);
    assert_eq!(outcome.failures[0].0.status, ValidationStatus::Failed);
}

#[test]
fn signing_is_deterministic_and_verifies() {
    let key = SigningKey::from_bytes(&[7u8; 32]);
    assert_eq!(key.to_bytes(), [7u8; 32]);
    let mut a = stated().remove(0);
    let mut b = a.clone();
    sign_receipt(&mut a, &key).unwrap();
    sign_receipt(&mut b, &key).unwrap();
    let (sa, sb) = (a.attestation.as_ref().unwrap(), b.attestation.as_ref().unwrap());
    assert_eq!(sa.sig, sb.sig);
    assert_eq!(sa.alg, "ed25519");
    assert_eq!(sa.public_key.len(), 64);
    assert_eq!(sa.sig.len(), 128);
    let report = verify(&a, INSTANCE.as_bytes());
    assert_eq!(report.status, ValidationStatus::Verified, "{report:?}");
    let mut c = a.clone();
    c.attestation.as_mut().unwrap().alg = "rsa".into();
    let report = verify(&c, INSTANCE.as_bytes());
    assert!(!report.checks.iter().find(|x| x.name == CheckName::Attestation).unwrap().pass);
}

#[test]
fn label_lookup_falls_back_to_any_language() {
    let schema_xml = r#"<schema xmlns="http://www.w3.org/2001/XMLSchema" xmlns:ex="http://example.com/taxonomy" targetNamespace="http://example.com/taxonomy"><element id="ex_A" name="A"/></schema>"#;
    let lab_xml = r#"<link:linkbase xmlns:xlink="http://www.w3.org/1999/xlink" xmlns:link="http://www.xbrl.org/2003/linkbase"><link:labelLink>
<link:label xml:lang="en" xlink:label="l_en" xlink:role="http://www.xbrl.org/2003/role/label">A label</link:label>
<link:loc xlink:href="other.xsd#ex_A" xlink:label="loc"/>
<link:labelArc xlink:from="loc" xlink:to="l_en"/>
</link:labelLink></link:linkbase>"#;
    let mut schema = SchemaIndex::new();
    schema.ingest_schema("example.xsd", schema_xml.as_bytes()).unwrap();
    let q = schema.resolve("example.xsd", "ex_A").unwrap();
    assert_eq!(q.prefix.as_deref(), Some("ex"));
    assert!(schema.resolve("other.xsd", "ex_A").is_none());
    assert_eq!(schema.resolve_by_fragment("ex_A").unwrap().local_name, "A");
    let mut lab = LabelLinkbase::new();
    lab.ingest(lab_xml.as_bytes(), &schema).unwrap();
    let name = QName {
        namespace_uri: Some("http://example.com/taxonomy".into()),
        prefix: None,
        local_name: "A".into(),
    };
    assert_eq!(lab.label(&name, None, Some("fr")).as_deref(), Some("A label"));
    assert_eq!(lab.lookup(&name, "http://www.xbrl.org/2003/role/terseLabel", Some("en")), None);
}

#[test]
fn start_tag_splits_attributes_and_defers_footnote_content() {
    let mut p = InstanceParser::new();
    let pairs = vec![
        ("xmlns:link".to_string(), "http://www.xbrl.org/2003/linkbase".to_string()),
        ("xlink:label".to_string(), "fn1".to_string()),
        ("id".to_string(), "f1".to_string()),
    ];
    match p.start_tag(pairs, b"link:footnote", 10) {
        Ok(StartTag::Footnote(attrs)) => {
            assert_eq!(attrs.get("label").map(|s| s.as_str()), Some("fn1"));
            assert_eq!(attrs.get("xlink:label").map(|s| s.as_str()), Some("fn1"));
            assert_eq!(attrs.get("id").map(|s| s.as_str()), Some("f1"));
            assert!(attrs.get("xmlns:link").is_none());
        }
        _ => panic!("expected a footnote"),
    }
    assert!(matches!(p.start_tag(Vec::new(), &[0xff, 0xfe], 0), Err(XbrlError::Xml { .. })));
    match p.start_tag(Vec::new(), b"xbrli:xbrl", 0) {
        Ok(StartTag::Handled(pushed)) => assert!(pushed),
        _ => panic!("expected the root to be opened"),
    }
}

#[test]
fn document_set_compares_measures_by_namespace_not_prefix() {
    let with_prefix = |prefix: &str, ns: &str| {
        format!(
            r#"<xbrli:xbrl xmlns:xbrli="http://www.xbrl.org/2003/instance" xmlns:{prefix}="{ns}">
  <xbrli:unit id="U"><xbrli:measure>{prefix}:JPY</xbrli:measure></xbrli:unit>
</xbrli:xbrl>"#
        )
    };
    let a = with_prefix("iso4217", "http://www.xbrl.org/2003/iso4217");
    let b = with_prefix("iso", "http://www.xbrl.org/2003/iso4217");
    let merged = parse_instance_set(&[a.into_bytes(), b.into_bytes()]).unwrap();
    assert_eq!(merged.units.len(), 1);
    let c = with_prefix("iso", "http://example.com/other");
    let a = with_prefix("iso4217", "http://www.xbrl.org/2003/iso4217");
    let err = parse_instance_set(&[a.into_bytes(), c.into_bytes()]).unwrap_err();
    assert!(matches!(err, XbrlError::IxdsConflict { kind, id } if kind == "unit" && id == "U"));
}

#[test]
fn each_fact_has_its_own_byte_range() {
    let doc = parse_instance(INSTANCE.as_bytes()).unwrap();
    assert_eq!(doc.facts.len(), 3);
    for (i, a) in doc.facts.iter().enumerate() {
        let (s, e) = a.byte_range.unwrap();
        assert!(s <= e && e <= INSTANCE.len() as u64);
        for b in doc.facts.iter().skip(i + 1) {
            assert_ne!(a.byte_range, b.byte_range);
        }
    }
}

#[test]
fn document_set_returns_a_members_own_error() {
    let good = member("c1", "E1", "A").into_bytes();
    let mut bad = b"<a>ok".to_vec();
    bad.push(0xff);
    let direct = parse_instance(&bad).unwrap_err();
    let err = parse_instance_set(&[good, bad]).unwrap_err();
    assert_eq!(err.to_string(), direct.to_string());
    assert!(matches!(err, XbrlError::Xml { byte_offset: Some(5), .. }));
}

#[test]
fn receipts_built_from_a_context_verify_in_it() {
    let bytes = INSTANCE.as_bytes();
    let ctx = SourceContext::load(bytes).unwrap();
    let receipts = build_receipts(ctx.instance(), "DOC1", &artifact(bytes)).unwrap();
    assert_eq!(receipts.len(), 2);
    for r in &receipts {
        let report = verify_in(&ctx, r);
        assert_eq!(report.status, ValidationStatus::Verified);
        assert!(report.checks.iter().all(|c| c.pass));
    }
}

#[test]
fn document_set_keeps_member_order() {
    let a = member("c1", "E1", "A");
    let b = member("c2", "E2", "B");
    let merged = parse_instance_set(&[a.into_bytes(), b.into_bytes()]).unwrap();
    let names: Vec<&str> = merged.facts.iter().map(|f| f.name.local_name.as_str()).collect();
    assert_eq!(names, vec!["A", "B"]);
    assert_eq!(merged.contexts.get("c1").unwrap().entity.identifier, "E1");
    assert_eq!(merged.contexts.get("c2").unwrap().entity.identifier, "E2");
    assert_eq!(merged.schema_refs, vec!["ex.xsd"]);
}
